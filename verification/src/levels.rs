//! Per-level bookkeeping of the skeletonisation cycle: ranks of merged
//! boxes, sample counts, near fields and the final permutation.
use vstd::prelude::*;

verus! {

/// A box of the current level is either the union of boxes compressed at
/// finer levels (with the rank chosen for it) or a full box compressed to a
/// tolerance.
#[derive(Debug, Clone, Copy, PartialEq, Eq)]
pub enum BoxType {
    Merged(usize),
    Full,
}

/// How the rank of a merged box follows from the ranks of its children.
#[derive(Debug, Clone, Copy, PartialEq, Eq)]
pub enum RankPicking {
    Min,
    DoubleMin,
    Max,
    Avg,
    Mid,
    Tol,
}

/// The ranks of the merged boxes among `boxes`, in order.
pub open spec fn merged_ranks(boxes: Seq<BoxType>) -> Seq<usize>
    decreases boxes.len(),
{
    if boxes.len() == 0 {
        Seq::empty()
    } else {
        let rest = merged_ranks(boxes.drop_last());
        match boxes.last() {
            BoxType::Merged(r) => rest.push(r),
            BoxType::Full => rest,
        }
    }
}

/// Smallest entry of a non-empty sequence.
pub open spec fn seq_min(s: Seq<usize>) -> nat
    decreases s.len(),
{
    if s.len() <= 1 {
        s[0] as nat
    } else {
        let m = seq_min(s.drop_last());
        if s.last() < m {
            s.last() as nat
        } else {
            m
        }
    }
}

/// Largest entry of a non-empty sequence.
pub open spec fn seq_max(s: Seq<usize>) -> nat
    decreases s.len(),
{
    if s.len() <= 1 {
        s[0] as nat
    } else {
        let m = seq_max(s.drop_last());
        if s.last() > m {
            s.last() as nat
        } else {
            m
        }
    }
}

/// Sum of the entries.
pub open spec fn seq_sum(s: Seq<usize>) -> nat
    decreases s.len(),
{
    if s.len() == 0 {
        0
    } else {
        seq_sum(s.drop_last()) + s.last() as nat
    }
}

/// The rank picked for a merged box from the boxes merged into it: none when
/// no child was merged or ranks follow the tolerance; otherwise the smallest
/// child rank (doubled for `DoubleMin`), the largest, the rounded-down
/// average, or the rounded-down midpoint of smallest and largest.
pub open spec fn pick_ranks_spec(rank_picking: RankPicking, boxes: Seq<BoxType>) -> Option<nat> {
    let ranks = merged_ranks(boxes);
    if ranks.len() == 0 {
        None
    } else {
        match rank_picking {
            RankPicking::Min => Some(seq_min(ranks)),
            RankPicking::DoubleMin => Some(2 * seq_min(ranks)),
            RankPicking::Max => Some(seq_max(ranks)),
            RankPicking::Avg => Some(seq_sum(ranks) / ranks.len()),
            RankPicking::Mid => Some((seq_min(ranks) + seq_max(ranks)) / 2),
            RankPicking::Tol => None,
        }
    }
}

/// The arithmetic that the chosen rule performs on the merged ranks stays
/// within `usize`: every doubled rank for `DoubleMin`, the sum for `Avg`,
/// the sum of the smallest and largest rank for `Mid`.
pub open spec fn pick_ranks_fits(rank_picking: RankPicking, boxes: Seq<BoxType>) -> bool {
    let ranks = merged_ranks(boxes);
    match rank_picking {
        RankPicking::DoubleMin => forall|k: int|
            0 <= k < ranks.len() ==> 2 * #[trigger] ranks[k] <= usize::MAX,
        RankPicking::Avg => seq_sum(ranks) <= usize::MAX,
        RankPicking::Mid => ranks.len() > 0 ==> seq_min(ranks) + seq_max(ranks) <= usize::MAX,
        _ => true,
    }
}

/// Sums of prefixes grow.
proof fn lemma_seq_sum_prefix(s: Seq<usize>, k: int)
    requires
        0 <= k <= s.len(),
    ensures
        seq_sum(s.take(k)) <= seq_sum(s),
    decreases s.len() - k,
{
    if k < s.len() {
        lemma_seq_sum_prefix(s, k + 1);
        assert(s.take(k + 1).drop_last() =~= s.take(k));
    } else {
        assert(s.take(k) =~= s);
    }
}

/// The smallest and largest entries are entries.
proof fn lemma_min_max_members(s: Seq<usize>)
    requires
        s.len() >= 1,
    ensures
        exists|k: int| 0 <= k < s.len() && s[k] == seq_min(s),
        exists|k: int| 0 <= k < s.len() && s[k] == seq_max(s),
        forall|k: int| 0 <= k < s.len() ==> seq_min(s) <= #[trigger] s[k] <= seq_max(s),
    decreases s.len(),
{
    if s.len() > 1 {
        lemma_min_max_members(s.drop_last());
        let kmin = choose|k: int| 0 <= k < s.drop_last().len() && s.drop_last()[k] == seq_min(s.drop_last());
        let kmax = choose|k: int| 0 <= k < s.drop_last().len() && s.drop_last()[k] == seq_max(s.drop_last());
        assert(s[kmin] == s.drop_last()[kmin]);
        assert(s[kmax] == s.drop_last()[kmax]);
        assert(s[s.len() - 1] == s.last());
        assert forall|k: int| 0 <= k < s.len() implies seq_min(s) <= #[trigger] s[k] <= seq_max(s) by {
            if k < s.len() - 1 {
                assert(s[k] == s.drop_last()[k]);
            }
        }
    } else {
        assert(s[0] == seq_min(s));
    }
}

/// The merged ranks are exactly the ranks the merged children carry: each
/// is the rank of a merged child, and each merged child's rank is among
/// them; there are as many as merged children.
pub proof fn lemma_merged_ranks_members(boxes: Seq<BoxType>)
    ensures
        forall|k: int| 0 <= k < merged_ranks(boxes).len() ==> exists|j: int|
            0 <= j < boxes.len() && boxes[j] == BoxType::Merged(#[trigger] merged_ranks(boxes)[k]),
        forall|j: int| 0 <= j < boxes.len() && #[trigger] boxes[j] is Merged ==> merged_ranks(boxes).contains(boxes[j]->0),
        merged_ranks(boxes).len() <= boxes.len(),
        (forall|j: int| 0 <= j < boxes.len() ==> #[trigger] boxes[j] == BoxType::Full) ==> merged_ranks(boxes).len() == 0,
    decreases boxes.len(),
{
    if boxes.len() > 0 {
        let init = boxes.drop_last();
        lemma_merged_ranks_members(init);
        let rest = merged_ranks(init);
        let m = merged_ranks(boxes);
        assert forall|k: int| 0 <= k < m.len() implies exists|j: int|
            0 <= j < boxes.len() && boxes[j] == BoxType::Merged(#[trigger] m[k]) by {
            if k < rest.len() {
                assert(m[k] == rest[k]);
                let j = choose|j: int| 0 <= j < init.len() && init[j] == BoxType::Merged(rest[k]);
                assert(boxes[j] == init[j]);
            } else {
                assert(boxes[boxes.len() - 1] == boxes.last());
            }
        }
        assert forall|j: int| 0 <= j < boxes.len() && #[trigger] boxes[j] is Merged implies m.contains(boxes[j]->0) by {
            let r = boxes[j]->0;
            if j < boxes.len() - 1 {
                assert(init[j] == boxes[j]);
                assert(rest.contains(r));
                let w = choose|w: int| 0 <= w < rest.len() && rest[w] == r;
                assert(m[w] == r);
            } else {
                assert(boxes.last() == BoxType::Merged(r));
                assert(m[m.len() - 1] == r);
            }
        }
        if forall|j: int| 0 <= j < boxes.len() ==> #[trigger] boxes[j] == BoxType::Full {
            assert forall|j: int| 0 <= j < init.len() implies #[trigger] init[j] == BoxType::Full by {
                assert(boxes[j] == BoxType::Full);
            }
            assert(boxes[boxes.len() - 1] == BoxType::Full);
        }
    }
}

/// What each rule picks, over the ranks of the merged children: nothing
/// without a merged child or with the tolerance rule; otherwise the smallest
/// rank (a rank of a child, no larger than any), twice it, the largest (a
/// rank of a child, no smaller than any), the rounded-down average (times
/// the number of merged children it is at most their sum, and one more is
/// above it), or the rounded-down midpoint of smallest and largest.
pub proof fn lemma_pick_ranks_rules(rank_picking: RankPicking, boxes: Seq<BoxType>)
    ensures
        ({
            let ranks = merged_ranks(boxes);
            let picked = pick_ranks_spec(rank_picking, boxes);
            &&& (ranks.len() == 0 || rank_picking == RankPicking::Tol) <==> picked is None
            &&& ranks.len() > 0 && rank_picking == RankPicking::Min ==> {
                &&& ranks.contains(picked->0 as usize)
                &&& forall|k: int| 0 <= k < ranks.len() ==> picked->0 <= #[trigger] ranks[k]
            }
            &&& ranks.len() > 0 && rank_picking == RankPicking::DoubleMin ==> {
                &&& picked->0 % 2 == 0
                &&& ranks.contains((picked->0 / 2) as usize)
                &&& forall|k: int| 0 <= k < ranks.len() ==> picked->0 <= 2 * #[trigger] ranks[k]
            }
            &&& ranks.len() > 0 && rank_picking == RankPicking::Max ==> {
                &&& ranks.contains(picked->0 as usize)
                &&& forall|k: int| 0 <= k < ranks.len() ==> #[trigger] ranks[k] <= picked->0
            }
            &&& ranks.len() > 0 && rank_picking == RankPicking::Avg ==> {
                &&& picked->0 * ranks.len() <= seq_sum(ranks)
                &&& seq_sum(ranks) < (picked->0 + 1) * ranks.len()
            }
            &&& ranks.len() > 0 && rank_picking == RankPicking::Mid ==> exists|a: int, b: int|
                #![trigger ranks[a], ranks[b]]
                0 <= a < ranks.len() && 0 <= b < ranks.len() && (forall|k: int|
                    0 <= k < ranks.len() ==> ranks[a] <= #[trigger] ranks[k] <= ranks[b]) && 2 * picked->0
                    <= ranks[a] + ranks[b] < 2 * picked->0 + 2
        }),
{
    let ranks = merged_ranks(boxes);
    if ranks.len() > 0 {
        lemma_min_max_members(ranks);
        let kmin = choose|k: int| 0 <= k < ranks.len() && ranks[k] == seq_min(ranks);
        let kmax = choose|k: int| 0 <= k < ranks.len() && ranks[k] == seq_max(ranks);
        assert(ranks.contains(ranks[kmin]));
        assert(ranks.contains(ranks[kmax]));
        let p = seq_sum(ranks) / ranks.len();
        let n = ranks.len() as int;
        let sum = seq_sum(ranks) as int;
        assert(p * n <= sum && sum < (p + 1) * n) by (nonlinear_arith)
            requires
                n > 0,
                p == sum / n,
                sum >= 0,
        ;
    }
}

/// The rank of a merged box from the boxes merged into it (`pick_ranks`).
pub fn pick_ranks(rank_picking: RankPicking, local_box_ranks: &[BoxType]) -> (r: Option<usize>)
    requires
        pick_ranks_fits(rank_picking, local_box_ranks@),
    ensures
        match r {
            Some(v) => pick_ranks_spec(rank_picking, local_box_ranks@) == Some(v as nat),
            None => pick_ranks_spec(rank_picking, local_box_ranks@) is None,
        },
{
    let ghost all = merged_ranks(local_box_ranks@);
    let n = local_box_ranks.len();
    let mut count: usize = 0;
    let mut min: usize = 0;
    let mut max: usize = 0;
    let mut sum: usize = 0;
    let mut k: usize = 0;
    while k < n
        invariant
            n == local_box_ranks@.len(),
            0 <= k <= n,
            all == merged_ranks(local_box_ranks@),
            pick_ranks_fits(rank_picking, local_box_ranks@),
            rank_picking == RankPicking::Avg ==> seq_sum(all) <= usize::MAX,
            count == merged_ranks(local_box_ranks@.take(k as int)).len(),
            count > 0 ==> min == seq_min(merged_ranks(local_box_ranks@.take(k as int))),
            count > 0 ==> max == seq_max(merged_ranks(local_box_ranks@.take(k as int))),
            rank_picking == RankPicking::Avg ==> sum == seq_sum(
                merged_ranks(local_box_ranks@.take(k as int)),
            ),
            merged_ranks(local_box_ranks@.take(k as int)).len() <= k,
        decreases n - k,
    {
        let ghost prefix = local_box_ranks@.take(k as int);
        let ghost next = local_box_ranks@.take(k + 1);
        proof {
            assert(next.drop_last() =~= prefix);
            assert(next.last() == local_box_ranks@[k as int]);
            lemma_merged_ranks_prefix(local_box_ranks@, k + 1);
            lemma_seq_sum_prefix(all, merged_ranks(next).len() as int);
        }
        match local_box_ranks[k] {
            BoxType::Merged(rank) => {
                proof {
                    assert(merged_ranks(next) == merged_ranks(prefix).push(rank));
                    assert(merged_ranks(next).drop_last() =~= merged_ranks(prefix));
                    assert(all.take(merged_ranks(next).len() as int) =~= merged_ranks(next));
                }
                if count == 0 || rank < min {
                    min = rank;
                }
                if count == 0 || rank > max {
                    max = rank;
                }
                if let RankPicking::Avg = rank_picking {
                    sum = sum + rank;
                }
                count = count + 1;
            },
            BoxType::Full => {
                proof {
                    assert(merged_ranks(next) == merged_ranks(prefix));
                }
            },
        }
        k = k + 1;
    }
    proof {
        assert(local_box_ranks@.take(n as int) =~= local_box_ranks@);
    }
    if count == 0 {
        return None;
    }
    proof {
        lemma_min_max_members(all);
        let a = choose|q: int| 0 <= q < all.len() && all[q] == seq_min(all);
        if rank_picking == RankPicking::DoubleMin {
            assert(2 * all[a] <= usize::MAX);
        }
    }
    match rank_picking {
        RankPicking::Min => Some(min),
        RankPicking::DoubleMin => Some(2 * min),
        RankPicking::Max => Some(max),
        RankPicking::Avg => Some(sum / count),
        RankPicking::Mid => Some((min + max) / 2),
        RankPicking::Tol => None,
    }
}

/// The merged ranks of a prefix are a prefix of the merged ranks.
proof fn lemma_merged_ranks_prefix(boxes: Seq<BoxType>, k: int)
    requires
        0 <= k <= boxes.len(),
    ensures
        merged_ranks(boxes).take(merged_ranks(boxes.take(k)).len() as int) =~= merged_ranks(
            boxes.take(k),
        ),
        merged_ranks(boxes.take(k)).len() <= merged_ranks(boxes).len(),
    decreases boxes.len() - k,
{
    if k < boxes.len() {
        lemma_merged_ranks_prefix(boxes, k + 1);
        let next = boxes.take(k + 1);
        assert(next.drop_last() =~= boxes.take(k));
        let mn = merged_ranks(next);
        let mk = merged_ranks(boxes.take(k));
        match next.last() {
            BoxType::Merged(r) => {
                assert(mn == mk.push(r));
                assert(merged_ranks(boxes).take(mk.len() as int) =~= merged_ranks(boxes).take(
                    mn.len() as int,
                ).take(mk.len() as int));
                assert(mn.take(mk.len() as int) =~= mk);
            },
            BoxType::Full => {
                assert(mn == mk);
            },
        }
    } else {
        assert(boxes.take(k) =~= boxes);
    }
}

/// Appends the entries of `src`.
fn extend_copy(dst: &mut Vec<usize>, src: &[usize])
    ensures
        final(dst)@ == old(dst)@ + src@,
{
    let ghost start = dst@;
    let n = src.len();
    let mut k: usize = 0;
    while k < n
        invariant
            n == src@.len(),
            0 <= k <= n,
            dst@ == start + src@.take(k as int),
        decreases n - k,
    {
        dst.push(src[k]);
        k = k + 1;
        proof {
            assert(src@.take(k as int) =~= src@.take(k - 1).push(src@[k - 1]));
        }
    }
    proof {
        assert(src@.take(n as int) =~= src@);
    }
}

/// The index sets that a level of the skeletonisation works on, one entry
/// per box of the level: the indices of the box (`target_inds`), its
/// skeleton (`ind_s`) and redundant (`ind_r`) indices, the boxes of its near
/// field (`near_inds`) and how it is compressed (`box_types`).
pub struct LevelIndices {
    pub target_inds: Vec<Vec<usize>>,
    pub ind_s: Vec<Vec<usize>>,
    pub ind_r: Vec<Vec<usize>>,
    pub near_inds: Vec<Vec<usize>>,
    pub box_types: Vec<BoxType>,
}

/// The indices of the boxes listed in `near`, gathered in order.
pub open spec fn gathered_indices(near: Seq<usize>, target_inds: Seq<Seq<usize>>) -> Seq<usize> {
    near.map_values(|k: usize| target_inds[k as int]).flatten()
}

impl LevelIndices {
    /// Indices of the near field of box `box_ind`: the indices of the boxes
    /// in its near-field list, in order.
    pub fn get_near_indices(&self, box_ind: usize) -> (near: Vec<usize>)
        requires
            box_ind < self.near_inds@.len(),
            forall|k: int|
                0 <= k < self.near_inds@[box_ind as int]@.len() ==> #[trigger] self.near_inds@[box_ind as int]@[k]
                    < self.target_inds@.len(),
        ensures
            near@ == gathered_indices(self.near_inds.deep_view()[box_ind as int], self.target_inds.deep_view()),
    {
        let list = &self.near_inds[box_ind];
        let ghost targets = self.target_inds.deep_view();
        let ghost boxes = list@;
        let mut near: Vec<usize> = Vec::new();
        let n = list.len();
        let mut k: usize = 0;
        while k < n
            invariant
                n == boxes.len(),
                boxes == list@,
                targets == self.target_inds.deep_view(),
                0 <= k <= n,
                forall|j: int| 0 <= j < n ==> #[trigger] boxes[j] < self.target_inds@.len(),
                near@ == boxes.take(k as int).map_values(|b: usize| targets[b as int]).flatten(),
            decreases n - k,
        {
            let b = list[k];
            extend_copy(&mut near, self.target_inds[b].as_slice());
            proof {
                let f = |b: usize| targets[b as int];
                let before = boxes.take(k as int).map_values(f);
                assert(boxes.take(k + 1).map_values(f) =~= before.push(targets[b as int]));
                before.lemma_flatten_push(targets[b as int]);
                assert(targets[b as int] == self.target_inds@[b as int]@);
            }
            k = k + 1;
        }
        proof {
            assert(boxes.take(n as int) =~= boxes);
            assert(self.near_inds.deep_view()[box_ind as int] == boxes);
        }
        near
    }
}

/// The indices `0..dim`, in order.
pub open spec fn index_range(dim: nat) -> Seq<usize> {
    Seq::new(dim, |i: int| i as usize)
}

/// Column order of the last step: the redundant indices of every box, then
/// the skeleton indices of every box, then every other index below `dim`, in
/// increasing order.
pub open spec fn extract_cols_spec(ind_r: Seq<Seq<usize>>, ind_s: Seq<Seq<usize>>, dim: nat) -> Seq<
    usize,
> {
    let listed = ind_r.flatten() + ind_s.flatten();
    listed + index_range(dim).filter(|i: usize| !listed.contains(i))
}

/// All the index lists of `lists`, concatenated in order.
fn concat_lists(lists: &Vec<Vec<usize>>) -> (flat: Vec<usize>)
    ensures
        flat@ == lists.deep_view().flatten(),
{
    let ghost all = lists.deep_view();
    let n = lists.len();
    let mut flat: Vec<usize> = Vec::new();
    let mut k: usize = 0;
    while k < n
        invariant
            n == all.len(),
            all == lists.deep_view(),
            0 <= k <= n,
            flat@ == all.take(k as int).flatten(),
        decreases n - k,
    {
        extend_copy(&mut flat, lists[k].as_slice());
        proof {
            assert(all.take(k + 1) =~= all.take(k as int).push(all[k as int]));
            all.take(k as int).lemma_flatten_push(all[k as int]);
        }
        k = k + 1;
    }
    proof {
        assert(all.take(n as int) =~= all);
    }
    flat
}

impl LevelIndices {
    /// Row and column orders of the last step: the rows in
    /// their natural order `0..dim`, the columns ordered by
    /// `extract_cols_spec`.
    pub fn extract_step_layout(&self, dim: usize) -> (layout: (Vec<usize>, Vec<usize>))
        ensures
            layout.0@ == extract_cols_spec(self.ind_r.deep_view(), self.ind_s.deep_view(), dim as nat),
            layout.1@ == index_range(dim as nat),
    {
        let mut rows: Vec<usize> = Vec::new();
        let mut marks: Vec<bool> = Vec::new();
        let mut i: usize = 0;
        while i < dim
            invariant
                0 <= i <= dim,
                rows@ == index_range(i as nat),
                marks@.len() == i,
                forall|j: int| 0 <= j < i ==> !#[trigger] marks@[j],
            decreases dim - i,
        {
            rows.push(i);
            marks.push(false);
            i = i + 1;
            proof {
                assert(rows@ =~= index_range(i as nat));
            }
        }
        let mut cols = concat_lists(&self.ind_r);
        let flat_s = concat_lists(&self.ind_s);
        extend_copy(&mut cols, flat_s.as_slice());
        let ghost listed = cols@;
        let n = cols.len();
        let mut k: usize = 0;
        while k < n
            invariant
                n == listed.len(),
                cols@ == listed,
                marks@.len() == dim,
                0 <= k <= n,
                forall|j: int| 0 <= j < dim ==> #[trigger] marks@[j] == listed.take(k as int).contains(
                    j as usize,
                ),
            decreases n - k,
        {
            let e = cols[k];
            if e < dim {
                marks.set(e, true);
            }
            proof {
                assert(listed.take(k + 1) =~= listed.take(k as int).push(e));
                assert forall|j: int| 0 <= j < dim implies #[trigger] marks@[j] == listed.take(
                    k + 1,
                ).contains(j as usize) by {
                    if listed.take(k as int).contains(j as usize) {
                        let w = choose|w: int|
                            0 <= w < k && #[trigger] listed.take(k as int)[w] == j as usize;
                        assert(listed.take(k + 1)[w] == j as usize);
                    }
                    if listed.take(k + 1).contains(j as usize) && j as usize != e {
                        let w = choose|w: int|
                            0 <= w < k + 1 && #[trigger] listed.take(k + 1)[w] == j as usize;
                        assert(listed.take(k as int)[w] == j as usize);
                    }
                    if j as usize == e {
                        assert(listed.take(k + 1)[k as int] == e);
                    }
                }
            }
            k = k + 1;
        }
        proof {
            assert(listed.take(n as int) =~= listed);
        }
        let ghost keep = |x: usize| !listed.contains(x);
        let mut i: usize = 0;
        while i < dim
            invariant
                0 <= i <= dim,
                marks@.len() == dim,
                forall|j: int| 0 <= j < dim ==> #[trigger] marks@[j] == listed.contains(j as usize),
                keep == (|x: usize| !listed.contains(x)),
                cols@ == listed + index_range(i as nat).filter(keep),
            decreases dim - i,
        {
            proof {
                assert(index_range((i + 1) as nat).drop_last() =~= index_range(i as nat));
                assert(index_range((i + 1) as nat).last() == i);
            }
            let ghost before = index_range(i as nat).filter(keep);
            if !marks[i] {
                cols.push(i);
                proof {
                    assert(keep(i));
                    reveal(Seq::filter);
                    assert(index_range((i + 1) as nat).filter(keep) == before.push(i));
                    assert(cols@ =~= listed + index_range((i + 1) as nat).filter(keep));
                }
            } else {
                proof {
                    assert(!keep(i));
                    reveal(Seq::filter);
                    assert(index_range((i + 1) as nat).filter(keep) == before);
                }
            }
            i = i + 1;
        }
        proof {
            assert(self.ind_r.deep_view().flatten() + self.ind_s.deep_view().flatten() == listed);
        }
        (cols, rows)
    }
}

/// The indices below `n`.
pub open spec fn below(n: nat) -> Set<usize> {
    Set::new(|x: usize| x < n)
}

/// There are `n` indices below `n`.
pub proof fn lemma_below_len(n: nat)
    requires
        n <= usize::MAX + 1,
    ensures
        below(n).finite(),
        below(n).len() == n,
    decreases n,
{
    if n == 0 {
        assert(below(0) =~= Set::<usize>::empty());
    } else {
        lemma_below_len((n - 1) as nat);
        assert(below(n) =~= below((n - 1) as nat).insert((n - 1) as usize));
    }
}

/// The indices below `n` that `listed` leaves out come in increasing order,
/// and are all of them.
proof fn lemma_range_filter(listed: Seq<usize>, n: nat)
    requires
        n <= usize::MAX + 1,
    ensures
        ({
            let f = index_range(n).filter(|i: usize| !listed.contains(i));
            &&& forall|a: int| 0 <= a < f.len() ==> #[trigger] f[a] < n && !listed.contains(f[a])
            &&& forall|a: int, b: int| 0 <= a < b < f.len() ==> f[a] < f[b]
            &&& forall|x: usize| x < n && !listed.contains(x) ==> f.contains(x)
        }),
    decreases n,
{
    reveal(Seq::filter);
    let keep = |i: usize| !listed.contains(i);
    if n > 0 {
        lemma_range_filter(listed, (n - 1) as nat);
        assert(index_range(n).drop_last() =~= index_range((n - 1) as nat));
        let prev = index_range((n - 1) as nat).filter(keep);
        let f = index_range(n).filter(keep);
        if keep((n - 1) as usize) {
            assert(f == prev.push((n - 1) as usize));
            assert forall|x: usize| x < n && !listed.contains(x) implies f.contains(x) by {
                if x < n - 1 {
                    let w = choose|w: int| 0 <= w < prev.len() && prev[w] == x;
                    assert(f[w] == x);
                } else {
                    assert(f[f.len() - 1] == x);
                }
            }
        } else {
            assert(f == prev);
        }
    } else {
        assert(index_range(0).filter(keep) =~= Seq::<usize>::empty());
    }
}

/// When the redundant and skeleton indices of all boxes are distinct and
/// below `dim`, the column order of the last step lists every index below
/// `dim` exactly once: it is a permutation.
pub proof fn lemma_extract_cols_permutation(ind_r: Seq<Seq<usize>>, ind_s: Seq<Seq<usize>>, dim: usize)
    requires
        (ind_r.flatten() + ind_s.flatten()).no_duplicates(),
        forall|k: int|
            0 <= k < (ind_r.flatten() + ind_s.flatten()).len() ==> #[trigger] (ind_r.flatten()
                + ind_s.flatten())[k] < dim,
    ensures
        extract_cols_spec(ind_r, ind_s, dim as nat).len() == dim,
        extract_cols_spec(ind_r, ind_s, dim as nat).no_duplicates(),
        forall|i: usize| i < dim ==> extract_cols_spec(ind_r, ind_s, dim as nat).contains(i),
{
    let listed = ind_r.flatten() + ind_s.flatten();
    let keep = |i: usize| !listed.contains(i);
    let f = index_range(dim as nat).filter(keep);
    let cols = extract_cols_spec(ind_r, ind_s, dim as nat);
    lemma_range_filter(listed, dim as nat);
    assert(cols == listed + f);
    assert forall|a: int, b: int| 0 <= a < cols.len() && 0 <= b < cols.len() && a != b implies cols[a]
        != cols[b] by {
        if a < listed.len() && b >= listed.len() {
            assert(cols[b] == f[b - listed.len()]);
            assert(!listed.contains(f[b - listed.len()]));
            assert(cols[a] == listed[a]);
        } else if b < listed.len() && a >= listed.len() {
            assert(cols[a] == f[a - listed.len()]);
            assert(!listed.contains(f[a - listed.len()]));
            assert(cols[b] == listed[b]);
        } else if a >= listed.len() && b >= listed.len() {
            if a < b {
                assert(f[a - listed.len()] < f[b - listed.len()]);
            } else {
                assert(f[b - listed.len()] < f[a - listed.len()]);
            }
        }
    }
    assert forall|i: usize| i < dim implies cols.contains(i) by {
        if listed.contains(i) {
            let w = choose|w: int| 0 <= w < listed.len() && listed[w] == i;
            assert(cols[w] == i);
        } else {
            let w = choose|w: int| 0 <= w < f.len() && f[w] == i;
            assert(cols[listed.len() + w] == i);
        }
    }
    assert(cols.to_set() =~= below(dim as nat)) by {
        assert forall|x: usize| cols.to_set().contains(x) implies below(dim as nat).contains(x) by {
            let w = choose|w: int| 0 <= w < cols.len() && cols[w] == x;
            if w < listed.len() {
                assert(listed[w] < dim);
            } else {
                assert(f[w - listed.len()] < dim);
            }
        }
        assert forall|x: usize| below(dim as nat).contains(x) implies cols.to_set().contains(x) by {
            assert(cols.contains(x));
        }
    }
    cols.unique_seq_to_set();
    lemma_below_len(dim as nat);
}

/// Concatenation, in the order of the boxes of the finer level, of the
/// skeleton indices of the first `n` boxes whose parent is box `p`.
pub open spec fn children_indices(
    ind_s: Seq<Seq<usize>>,
    parent: Seq<Option<usize>>,
    p: usize,
    n: int,
) -> Seq<usize>
    decreases n,
{
    if n <= 0 {
        Seq::empty()
    } else {
        let prev = children_indices(ind_s, parent, p, n - 1);
        if parent[n - 1] == Some(p) {
            prev + ind_s[n - 1]
        } else {
            prev
        }
    }
}

/// Number of the first `n` boxes of the finer level whose parent is box `p`.
pub open spec fn child_count(parent: Seq<Option<usize>>, p: usize, n: int) -> nat
    decreases n,
{
    if n <= 0 {
        0
    } else {
        child_count(parent, p, n - 1) + if parent[n - 1] == Some(p) {
            1nat
        } else {
            0nat
        }
    }
}

/// The ranks of the first `n` boxes whose parent is box `p` and that were
/// compressed (fewer skeleton than target indices): their numbers of
/// skeleton indices, in order.
pub open spec fn child_ranks(
    ind_s: Seq<Seq<usize>>,
    target: Seq<Seq<usize>>,
    parent: Seq<Option<usize>>,
    p: usize,
    n: int,
) -> Seq<BoxType>
    decreases n,
{
    if n <= 0 {
        Seq::empty()
    } else {
        let prev = child_ranks(ind_s, target, parent, p, n - 1);
        if parent[n - 1] == Some(p) && ind_s[n - 1].len() < target[n - 1].len() {
            prev.push(BoxType::Merged(ind_s[n - 1].len() as usize))
        } else {
            prev
        }
    }
}

/// The first of the first `n` boxes of the finer level that is box `p`
/// itself at the current level.
pub open spec fn first_same(same: Seq<Option<usize>>, p: usize, n: int) -> Option<int>
    decreases n,
{
    if n <= 0 {
        None
    } else {
        match first_same(same, p, n - 1) {
            Some(b) => Some(b),
            None => if same[n - 1] == Some(p) {
                Some(n - 1)
            } else {
                None
            },
        }
    }
}

/// The indices a box of the finer level hands on to the box it becomes when
/// it has no children: all its indices at the step below the top of the
/// tree, else its skeleton (nothing when it was merged into a parent).
pub open spec fn handed_on(
    target: Seq<Seq<usize>>,
    ind_s: Seq<Seq<usize>>,
    parent: Seq<Option<usize>>,
    last_step: bool,
    b: int,
) -> Seq<usize> {
    if last_step {
        target[b]
    } else if parent[b] is Some {
        Seq::empty()
    } else {
        ind_s[b]
    }
}

/// The indices of box `p` of the current level: the skeletons of its
/// children, in order; or, when it has none, what the box of the finer
/// level with its own key hands on.
pub open spec fn level_targets(
    target: Seq<Seq<usize>>,
    ind_s: Seq<Seq<usize>>,
    parent: Seq<Option<usize>>,
    same: Seq<Option<usize>>,
    last_step: bool,
    p: usize,
) -> Seq<usize> {
    let n = parent.len() as int;
    if child_count(parent, p, n) > 0 {
        children_indices(ind_s, parent, p, n)
    } else {
        match first_same(same, p, n) {
            Some(b) => handed_on(target, ind_s, parent, last_step, b),
            None => Seq::empty(),
        }
    }
}

/// How box `p` is compressed: to the rank picked from its compressed
/// children, at most its number of indices; else to the tolerance.
pub open spec fn level_box_type(
    rank_picking: RankPicking,
    ranks: Seq<BoxType>,
    size: nat,
) -> BoxType {
    match pick_ranks_spec(rank_picking, ranks) {
        Some(r) => BoxType::Merged(
            (if r < size {
                r
            } else {
                size
            }) as usize,
        ),
        None => BoxType::Full,
    }
}

/// There are at most `n` children among `n` boxes.
proof fn lemma_child_count_bound(parent: Seq<Option<usize>>, p: usize, n: int)
    ensures
        child_count(parent, p, n) <= if n < 0 {
            0
        } else {
            n
        },
    decreases n,
{
    if n > 0 {
        lemma_child_count_bound(parent, p, n - 1);
    }
}

/// A box without children gathers no indices from them.
proof fn lemma_no_children(ind_s: Seq<Seq<usize>>, parent: Seq<Option<usize>>, p: usize, n: int)
    requires
        child_count(parent, p, n) == 0,
    ensures
        children_indices(ind_s, parent, p, n) == Seq::<usize>::empty(),
    decreases n,
{
    if n > 0 {
        lemma_no_children(ind_s, parent, p, n - 1);
    }
}

/// A copy of every index list.
fn copy_lists(lists: &Vec<Vec<usize>>) -> (copy: Vec<Vec<usize>>)
    ensures
        copy.deep_view() == lists.deep_view(),
{
    let n = lists.len();
    let mut copy: Vec<Vec<usize>> = Vec::new();
    let mut k: usize = 0;
    while k < n
        invariant
            n == lists@.len(),
            0 <= k <= n,
            copy@.len() == k,
            forall|j: int| 0 <= j < k ==> #[trigger] copy@[j]@ == lists@[j]@,
        decreases n - k,
    {
        let mut inner: Vec<usize> = Vec::new();
        extend_copy(&mut inner, lists[k].as_slice());
        copy.push(inner);
        k = k + 1;
    }
    proof {
        assert(copy.deep_view() =~= lists.deep_view());
    }
    copy
}

impl LevelIndices {
    /// Moves the index sets one level up the tree (`get_level_indices` below
    /// the top level). `parent[b]` and `same[b]` give, for box `b` of the
    /// finer level, the current-level box of its parent and of its own key,
    /// where they exist; `near[p]` lists the current-level boxes in the near
    /// field of box `p`; `last_step` tells that the finer level is the
    /// deepest one.
    pub fn get_level_indices(
        &mut self,
        parent: &Vec<Option<usize>>,
        same: &Vec<Option<usize>>,
        near: &Vec<Vec<usize>>,
        last_step: bool,
        rank_picking: RankPicking,
    )
        requires
            parent@.len() == same@.len(),
            old(self).target_inds@.len() == parent@.len(),
            old(self).ind_s@.len() == parent@.len(),
            forall|b: int| 0 <= b < parent@.len() ==> (#[trigger] parent@[b] matches Some(p) ==> p < near@.len()),
            forall|b: int| 0 <= b < same@.len() ==> (#[trigger] same@[b] matches Some(p) ==> p < near@.len()),
            forall|p: usize|
                p < near@.len() ==> pick_ranks_fits(
                    rank_picking,
                    #[trigger] child_ranks(
                        old(self).ind_s.deep_view(),
                        old(self).target_inds.deep_view(),
                        parent@,
                        p,
                        parent@.len() as int,
                    ),
                ),
        ensures
            final(self).target_inds@.len() == near@.len(),
            forall|p: usize|
                p < near@.len() ==> #[trigger] final(self).target_inds.deep_view()[p as int] == level_targets(
                    old(self).target_inds.deep_view(),
                    old(self).ind_s.deep_view(),
                    parent@,
                    same@,
                    last_step,
                    p,
                ),
            final(self).ind_s.deep_view() == final(self).target_inds.deep_view(),
            final(self).ind_r.deep_view() == old(self).ind_r.deep_view(),
            final(self).box_types@.len() == near@.len(),
            forall|p: usize|
                p < near@.len() ==> #[trigger] final(self).box_types@[p as int] == level_box_type(
                    rank_picking,
                    child_ranks(
                        old(self).ind_s.deep_view(),
                        old(self).target_inds.deep_view(),
                        parent@,
                        p,
                        parent@.len() as int,
                    ),
                    final(self).target_inds@[p as int]@.len(),
                ),
            final(self).near_inds@.len() == near@.len(),
            forall|p: int|
                0 <= p < near@.len() ==> #[trigger] final(self).near_inds@[p]@ == seq![p as usize]
                    + near@[p]@,
    {
        let ghost old_target = self.target_inds.deep_view();
        let ghost old_s = self.ind_s.deep_view();
        let nb = near.len();
        let nf = parent.len();
        let mut target: Vec<Vec<usize>> = Vec::new();
        let mut ranks: Vec<Vec<BoxType>> = Vec::new();
        let mut sons: Vec<usize> = Vec::new();
        let mut p: usize = 0;
        while p < nb
            invariant
                0 <= p <= nb,
                target@.len() == p,
                ranks@.len() == p,
                sons@.len() == p,
                forall|q: int| 0 <= q < p ==> (#[trigger] target@[q])@ == Seq::<usize>::empty(),
                forall|q: int| 0 <= q < p ==> (#[trigger] ranks@[q])@ == Seq::<BoxType>::empty(),
                forall|q: int| 0 <= q < p ==> #[trigger] sons@[q] == 0,
            decreases nb - p,
        {
            target.push(Vec::new());
            ranks.push(Vec::new());
            sons.push(0);
            p = p + 1;
        }
        // Children hand their skeletons to their parents.
        let mut b: usize = 0;
        while b < nf
            invariant
                nf == parent@.len(),
                nb == near@.len(),
                0 <= b <= nf,
                old_target == self.target_inds.deep_view(),
                old_s == self.ind_s.deep_view(),
                self.target_inds@.len() == nf,
                self.ind_s@.len() == nf,
                forall|c: int| 0 <= c < nf ==> (#[trigger] parent@[c] matches Some(q) ==> q < nb),
                target@.len() == nb,
                ranks@.len() == nb,
                sons@.len() == nb,
                forall|q: usize| q < nb ==> (#[trigger] target@[q as int])@ == children_indices(old_s, parent@, q, b as int),
                forall|q: usize| q < nb ==> (#[trigger] ranks@[q as int])@ == child_ranks(old_s, old_target, parent@, q, b as int),
                forall|q: usize| q < nb ==> #[trigger] sons@[q as int] == child_count(parent@, q, b as int),
            decreases nf - b,
        {
            proof {
                assert forall|q: usize| q < nb implies #[trigger] sons@[q as int] < usize::MAX by {
                    lemma_child_count_bound(parent@, q, b as int);
                }
            }
            match parent[b] {
                Some(q) => {
                    let ns = self.ind_s[b].len();
                    if ns < self.target_inds[b].len() {
                        ranks[q].push(BoxType::Merged(ns));
                    }
                    extend_copy(&mut target[q], self.ind_s[b].as_slice());
                    sons.set(q, sons[q] + 1);
                    proof {
                        assert(old_s[b as int] == self.ind_s@[b as int]@);
                        assert(old_target[b as int] == self.target_inds@[b as int]@);
                    }
                },
                None => {},
            }
            b = b + 1;
        }
        // Boxes without children take over what the box of their own key
        // hands on.
        let empty: Vec<usize> = Vec::new();
        proof {
            assert forall|q: usize| q < nb && child_count(parent@, q, nf as int) == 0 implies children_indices(
                old_s,
                parent@,
                q,
                nf as int,
            ) == Seq::<usize>::empty() by {
                lemma_no_children(old_s, parent@, q, nf as int);
            }
        }
        let mut b: usize = 0;
        while b < nf
            invariant
                nf == parent@.len(),
                nf == same@.len(),
                nb == near@.len(),
                0 <= b <= nf,
                old_target == self.target_inds.deep_view(),
                old_s == self.ind_s.deep_view(),
                self.target_inds@.len() == nf,
                self.ind_s@.len() == nf,
                empty@ == Seq::<usize>::empty(),
                forall|c: int| 0 <= c < nf ==> (#[trigger] same@[c] matches Some(q) ==> q < nb),
                target@.len() == nb,
                ranks@.len() == nb,
                sons@.len() == nb,
                forall|q: usize| q < nb ==> (#[trigger] target@[q as int])@ == if child_count(parent@, q, nf as int) > 0 {
                    children_indices(old_s, parent@, q, nf as int)
                } else {
                    match first_same(same@, q, b as int) {
                        Some(c) => handed_on(old_target, old_s, parent@, last_step, c),
                        None => Seq::empty(),
                    }
                },
                forall|q: usize| q < nb ==> (#[trigger] ranks@[q as int])@ == child_ranks(old_s, old_target, parent@, q, nf as int),
                forall|q: usize| q < nb ==> #[trigger] sons@[q as int] == child_count(parent@, q, nf as int) + if child_count(parent@, q, nf as int) == 0 && first_same(same@, q, b as int) is Some {
                    1nat
                } else {
                    0nat
                },
            decreases nf - b,
        {
            match same[b] {
                Some(q) => {
                    if sons[q] == 0 {
                        let src: &Vec<usize> = if last_step {
                            &self.target_inds[b]
                        } else if parent[b].is_some() {
                            &empty
                        } else {
                            &self.ind_s[b]
                        };
                        extend_copy(&mut target[q], src.as_slice());
                        sons.set(q, 1);
                        proof {
                            assert(src@ == handed_on(old_target, old_s, parent@, last_step, b as int));
                            assert(target@[q as int]@ =~= handed_on(old_target, old_s, parent@, last_step, b as int));
                        }
                    }
                },
                None => {},
            }
            b = b + 1;
        }
        // How each box is compressed.
        let mut types: Vec<BoxType> = Vec::new();
        let mut p: usize = 0;
        while p < nb
            invariant
                nb == near@.len(),
                0 <= p <= nb,
                target@.len() == nb,
                ranks@.len() == nb,
                types@.len() == p,
                forall|q: usize| q < nb ==> (#[trigger] ranks@[q as int])@ == child_ranks(old_s, old_target, parent@, q, nf as int),
                forall|q: usize| q < nb ==> pick_ranks_fits(rank_picking, #[trigger] child_ranks(old_s, old_target, parent@, q, nf as int)),
                forall|q: int| 0 <= q < p ==> #[trigger] types@[q] == level_box_type(
                    rank_picking,
                    child_ranks(old_s, old_target, parent@, q as usize, nf as int),
                    target@[q]@.len(),
                ),
            decreases nb - p,
        {
            let t = match pick_ranks(rank_picking, ranks[p].as_slice()) {
                Some(r) => {
                    let size = target[p].len();
                    BoxType::Merged(if r < size { r } else { size })
                },
                None => BoxType::Full,
            };
            types.push(t);
            p = p + 1;
        }
        // The near field of each box starts with the box itself.
        let mut lists: Vec<Vec<usize>> = Vec::new();
        let mut p: usize = 0;
        while p < nb
            invariant
                nb == near@.len(),
                0 <= p <= nb,
                lists@.len() == p,
                forall|q: int| 0 <= q < p ==> #[trigger] lists@[q]@ == seq![q as usize] + near@[q]@,
            decreases nb - p,
        {
            let mut list: Vec<usize> = Vec::new();
            list.push(p);
            extend_copy(&mut list, near[p].as_slice());
            lists.push(list);
            p = p + 1;
        }
        self.ind_s = copy_lists(&target);
        self.target_inds = target;
        self.box_types = types;
        self.near_inds = lists;
        proof {
            assert forall|q: usize| q < nb implies #[trigger] self.target_inds.deep_view()[q as int] == level_targets(
                old_target,
                old_s,
                parent@,
                same@,
                last_step,
                q,
            ) by {
                assert(self.target_inds.deep_view()[q as int] == self.target_inds@[q as int]@);
            }
        }
    }
}

/// Entry `b` of `lists` when it has one, else an empty list (what `resize`
/// leaves there).
pub open spec fn kept_list(lists: Seq<Seq<usize>>, b: int) -> Seq<usize> {
    if b < lists.len() {
        lists[b]
    } else {
        Seq::empty()
    }
}

/// Entry `b` of `lists`, resized to `n` entries with empty lists.
fn resized_entry(lists: &Vec<Vec<usize>>, b: usize) -> (entry: Vec<usize>)
    ensures
        entry@ == kept_list(lists.deep_view(), b as int),
{
    let mut entry: Vec<usize> = Vec::new();
    if b < lists.len() {
        extend_copy(&mut entry, lists[b].as_slice());
    }
    entry
}

impl LevelIndices {
    /// Sets up the index sets at the deepest level of the tree
    /// (`get_level_indices` at the top level): every list is resized to the
    /// number of boxes; a box with points (`points[b]`) gets them as its
    /// indices, and as its skeleton too when it lies at the deepest level
    /// (`at_max_level[b]`); its near-field list gains the box itself and the
    /// boxes of `near[b]`.
    pub fn first_level_indices(
        &mut self,
        points: &Vec<Option<Vec<usize>>>,
        at_max_level: &Vec<bool>,
        near: &Vec<Vec<usize>>,
    )
        requires
            at_max_level@.len() == points@.len(),
            near@.len() == points@.len(),
        ensures
            final(self).target_inds@.len() == points@.len(),
            final(self).ind_s@.len() == points@.len(),
            final(self).near_inds@.len() == points@.len(),
            final(self).box_types@.len() == points@.len(),
            final(self).ind_r.deep_view() == old(self).ind_r.deep_view(),
            forall|b: int| 0 <= b < points@.len() ==> #[trigger] final(self).target_inds@[b]@ == match points@[b] {
                Some(v) => v@,
                None => kept_list(old(self).target_inds.deep_view(), b),
            },
            forall|b: int| 0 <= b < points@.len() ==> #[trigger] final(self).ind_s@[b]@ == match points@[b] {
                Some(v) => if at_max_level@[b] {
                    v@
                } else {
                    kept_list(old(self).ind_s.deep_view(), b)
                },
                None => kept_list(old(self).ind_s.deep_view(), b),
            },
            forall|b: int| 0 <= b < points@.len() ==> #[trigger] final(self).near_inds@[b]@ == kept_list(
                old(self).near_inds.deep_view(),
                b,
            ) + seq![b as usize] + near@[b]@,
            forall|b: int| 0 <= b < points@.len() ==> #[trigger] final(self).box_types@[b] == if b
                < old(self).box_types@.len() {
                old(self).box_types@[b]
            } else {
                BoxType::Full
            },
    {
        let n = points.len();
        let mut target: Vec<Vec<usize>> = Vec::new();
        let mut skel: Vec<Vec<usize>> = Vec::new();
        let mut lists: Vec<Vec<usize>> = Vec::new();
        let mut types: Vec<BoxType> = Vec::new();
        let mut b: usize = 0;
        while b < n
            invariant
                n == points@.len(),
                n == at_max_level@.len(),
                n == near@.len(),
                0 <= b <= n,
                target@.len() == b,
                skel@.len() == b,
                lists@.len() == b,
                types@.len() == b,
                forall|c: int| 0 <= c < b ==> #[trigger] target@[c]@ == match points@[c] {
                    Some(v) => v@,
                    None => kept_list(self.target_inds.deep_view(), c),
                },
                forall|c: int| 0 <= c < b ==> #[trigger] skel@[c]@ == match points@[c] {
                    Some(v) => if at_max_level@[c] {
                        v@
                    } else {
                        kept_list(self.ind_s.deep_view(), c)
                    },
                    None => kept_list(self.ind_s.deep_view(), c),
                },
                forall|c: int| 0 <= c < b ==> #[trigger] lists@[c]@ == kept_list(self.near_inds.deep_view(), c)
                    + seq![c as usize] + near@[c]@,
                forall|c: int| 0 <= c < b ==> #[trigger] types@[c] == if c < self.box_types@.len() {
                    self.box_types@[c]
                } else {
                    BoxType::Full
                },
            decreases n - b,
        {
            let mut t = resized_entry(&self.target_inds, b);
            let mut k = resized_entry(&self.ind_s, b);
            match &points[b] {
                Some(v) => {
                    let mut fresh: Vec<usize> = Vec::new();
                    extend_copy(&mut fresh, v.as_slice());
                    if at_max_level[b] {
                        let mut fresh_s: Vec<usize> = Vec::new();
                        extend_copy(&mut fresh_s, v.as_slice());
                        k = fresh_s;
                    }
                    t = fresh;
                },
                None => {},
            }
            let mut list = resized_entry(&self.near_inds, b);
            list.push(b);
            extend_copy(&mut list, near[b].as_slice());
            let ty = if b < self.box_types.len() {
                self.box_types[b]
            } else {
                BoxType::Full
            };
            target.push(t);
            skel.push(k);
            lists.push(list);
            types.push(ty);
            b = b + 1;
        }
        self.target_inds = target;
        self.ind_s = skel;
        self.near_inds = lists;
        self.box_types = types;
    }
}

/// Total number of indices in `lists`.
pub open spec fn total_len(lists: Seq<Seq<usize>>) -> nat
    decreases lists.len(),
{
    if lists.len() == 0 {
        0
    } else {
        total_len(lists.drop_last()) + lists.last().len()
    }
}

/// Total number of indices that boxes `0..nb` of the current level hold
/// after a move up the tree.
pub open spec fn level_total(
    target: Seq<Seq<usize>>,
    ind_s: Seq<Seq<usize>>,
    parent: Seq<Option<usize>>,
    same: Seq<Option<usize>>,
    last_step: bool,
    nb: nat,
) -> nat
    decreases nb,
{
    if nb == 0 {
        0
    } else {
        level_total(target, ind_s, parent, same, last_step, (nb - 1) as nat) + level_targets(
            target,
            ind_s,
            parent,
            same,
            last_step,
            (nb - 1) as usize,
        ).len()
    }
}

/// Number of indices that boxes `0..nb` gather from the first `n` children.
spec fn gathered_total(ind_s: Seq<Seq<usize>>, parent: Seq<Option<usize>>, nb: nat, n: int) -> nat
    decreases nb,
{
    if nb == 0 {
        0
    } else {
        gathered_total(ind_s, parent, (nb - 1) as nat, n) + children_indices(
            ind_s,
            parent,
            (nb - 1) as usize,
            n,
        ).len()
    }
}

/// One more child adds its skeleton to the count of exactly its parent.
proof fn lemma_gathered_step(ind_s: Seq<Seq<usize>>, parent: Seq<Option<usize>>, nb: nat, n: int)
    requires
        0 <= n,
        nb <= usize::MAX + 1,
    ensures
        gathered_total(ind_s, parent, nb, n + 1) == gathered_total(ind_s, parent, nb, n) + match parent[n] {
            Some(p) => if p < nb {
                ind_s[n].len()
            } else {
                0
            },
            None => 0,
        },
    decreases nb,
{
    if nb > 0 {
        lemma_gathered_step(ind_s, parent, (nb - 1) as nat, n);
    }
}

/// With every child's parent among the first `nb` boxes, those boxes gather
/// as many indices as the children's skeletons hold.
proof fn lemma_gathered_all(ind_s: Seq<Seq<usize>>, parent: Seq<Option<usize>>, nb: nat, n: int)
    requires
        0 <= n <= ind_s.len(),
        nb <= usize::MAX + 1,
        forall|b: int| 0 <= b < n ==> (#[trigger] parent[b] matches Some(p) && p < nb),
    ensures
        gathered_total(ind_s, parent, nb, n) == total_len(ind_s.take(n)),
    decreases n,
{
    if n == 0 {
        assert(gathered_total(ind_s, parent, nb, 0) == 0) by {
            lemma_gathered_zero(ind_s, parent, nb);
        }
        assert(ind_s.take(0) =~= Seq::<Seq<usize>>::empty());
    } else {
        lemma_gathered_all(ind_s, parent, nb, n - 1);
        lemma_gathered_step(ind_s, parent, nb, n - 1);
        assert(parent[n - 1] matches Some(p) && p < nb);
        assert(ind_s.take(n).drop_last() =~= ind_s.take(n - 1));
    }
}

/// Before any child, nothing is gathered.
proof fn lemma_gathered_zero(ind_s: Seq<Seq<usize>>, parent: Seq<Option<usize>>, nb: nat)
    ensures
        gathered_total(ind_s, parent, nb, 0) == 0,
    decreases nb,
{
    if nb > 0 {
        lemma_gathered_zero(ind_s, parent, (nb - 1) as nat);
    }
}

/// Without boxes that keep their key, a box holds exactly its children's
/// skeletons.
proof fn lemma_level_total_gathered(
    target: Seq<Seq<usize>>,
    ind_s: Seq<Seq<usize>>,
    parent: Seq<Option<usize>>,
    same: Seq<Option<usize>>,
    last_step: bool,
    nb: nat,
)
    requires
        same.len() == parent.len(),
        nb <= usize::MAX + 1,
        forall|b: int| 0 <= b < same.len() ==> #[trigger] same[b] is None,
    ensures
        level_total(target, ind_s, parent, same, last_step, nb) == gathered_total(
            ind_s,
            parent,
            nb,
            parent.len() as int,
        ),
    decreases nb,
{
    if nb > 0 {
        lemma_level_total_gathered(target, ind_s, parent, same, last_step, (nb - 1) as nat);
        let p = (nb - 1) as usize;
        lemma_no_same(same, p, parent.len() as int);
        if child_count(parent, p, parent.len() as int) == 0 {
            lemma_no_children(ind_s, parent, p, parent.len() as int);
        }
    }
}

/// When no box keeps its key, no box of the current level is one.
proof fn lemma_no_same(same: Seq<Option<usize>>, p: usize, n: int)
    requires
        n <= same.len(),
        forall|b: int| 0 <= b < same.len() ==> #[trigger] same[b] is None,
    ensures
        first_same(same, p, n) is None,
    decreases n,
{
    if n > 0 {
        lemma_no_same(same, p, n - 1);
        assert(same[n - 1] is None);
    }
}

/// Moving one level up keeps every active index: when every box of the
/// finer level has its parent among the boxes of the current level and none
/// of them keeps its own key there, the boxes of the current level hold as
/// many indices in all as the skeletons of the finer level.
pub proof fn lemma_level_keeps_indices(
    target: Seq<Seq<usize>>,
    ind_s: Seq<Seq<usize>>,
    parent: Seq<Option<usize>>,
    same: Seq<Option<usize>>,
    last_step: bool,
    nb: usize,
)
    requires
        parent.len() == ind_s.len(),
        same.len() == parent.len(),
        forall|b: int| 0 <= b < parent.len() ==> (#[trigger] parent[b] matches Some(p) && p < nb),
        forall|b: int| 0 <= b < same.len() ==> #[trigger] same[b] is None,
    ensures
        level_total(target, ind_s, parent, same, last_step, nb as nat) == total_len(ind_s),
{
    lemma_level_total_gathered(target, ind_s, parent, same, last_step, nb as nat);
    lemma_gathered_all(ind_s, parent, nb as nat, ind_s.len() as int);
    assert(ind_s.take(ind_s.len() as int) =~= ind_s);
}

/// Number of samples to draw for `samples` wanted ones (`oversample`):
/// with a tolerance (`fixed_rank` is `None`, the tolerance being at most one)
/// `oversampling` more per hundred, else the fixed rank more; at least `ms`.
pub open spec fn oversample_spec(samples: nat, oversampling: nat, fixed_rank: Option<usize>, ms: nat) -> nat {
    let n = match fixed_rank {
        None => samples + (samples / 100) * oversampling,
        Some(r) => samples + r as nat,
    };
    if n < ms {
        ms
    } else {
        n
    }
}

/// Number of samples to draw (`oversample`). The ID tolerance enters as
/// `fixed_rank`: `None` for a tolerance of at most one, else the tolerance read
/// as a whole number.
pub fn oversample(samples: usize, oversampling: usize, fixed_rank: Option<usize>, ms: usize) -> (n: usize)
    requires
        match fixed_rank {
            None => samples + (samples / 100) * oversampling <= usize::MAX,
            Some(r) => samples + r <= usize::MAX,
        },
    ensures
        n == oversample_spec(samples as nat, oversampling as nat, fixed_rank, ms as nat),
{
    let n = match fixed_rank {
        None => {
            proof {
                assert((samples / 100) * oversampling <= usize::MAX) by (nonlinear_arith)
                    requires
                        samples + (samples / 100) * oversampling <= usize::MAX,
                ;
            }
            samples + (samples / 100) * oversampling
        },
        Some(r) => samples + r,
    };
    if n < ms {
        ms
    } else {
        n
    }
}

/// The samples drawn are never fewer than the minimum `ms`, nor fewer than
/// those wanted plus the oversampling (with a tolerance, `oversampling` per
/// hundred; with a fixed rank, that rank); and they are one of the two.
pub proof fn lemma_oversample_bounds(samples: nat, oversampling: nat, fixed_rank: Option<usize>, ms: nat)
    ensures
        ({
            let n = oversample_spec(samples, oversampling, fixed_rank, ms);
            let wanted = match fixed_rank {
                None => samples + (samples / 100) * oversampling,
                Some(r) => samples + r as nat,
            };
            &&& n >= ms
            &&& n >= wanted
            &&& n >= samples
            &&& n == ms || n == wanted
        }),
{
}

/// More samples wanted never ask for fewer samples drawn.
pub proof fn lemma_oversample_monotone(s1: nat, s2: nat, oversampling: nat, fixed_rank: Option<usize>, ms: nat)
    requires
        s1 <= s2,
    ensures
        oversample_spec(s1, oversampling, fixed_rank, ms) <= oversample_spec(s2, oversampling, fixed_rank, ms),
{
    assert((s1 / 100) * oversampling <= (s2 / 100) * oversampling) by (nonlinear_arith)
        requires
            s1 <= s2,
    {
        assert(s1 / 100 <= s2 / 100) by (nonlinear_arith)
            requires
                s1 <= s2,
        ;
    }
}

/// The minimum rank of the factorisation options: with an ID
/// tolerance above one, read as the whole number `tol_rank`, the smaller of
/// that rank and `min_rank`; else `min_rank`.
pub fn effective_min_rank(tol_rank: Option<usize>, min_rank: usize) -> (r: usize)
    ensures
        r == match tol_rank {
            Some(k) => if k <= min_rank {
                k
            } else {
                min_rank
            },
            None => min_rank,
        },
{
    match tol_rank {
        Some(k) => if k <= min_rank {
            k
        } else {
            min_rank
        },
        None => min_rank,
    }
}

/// Samples kept at a level (`local_oversample`): all the active ones.
pub fn local_oversample(min_samples: usize, active_samples: usize) -> (n: usize)
    ensures
        n == active_samples,
{
    active_samples
}

/// Smallest batch a worker takes (`auto_min_len`): one when there are no
/// more items than threads, else the items per two threads, between 1 and
/// 32.
pub open spec fn auto_min_len_spec(batch_len: nat, num_threads: nat) -> nat {
    if batch_len <= num_threads {
        1
    } else {
        let raw = batch_len / (2 * num_threads);
        if raw < 1 {
            1
        } else if raw > 32 {
            32
        } else {
            raw
        }
    }
}

/// Smallest batch a worker takes (`auto_min_len`).
pub fn auto_min_len(batch_len: usize, num_threads: usize) -> (n: usize)
    requires
        batch_len > num_threads ==> 0 < num_threads && 2 * num_threads <= usize::MAX,
    ensures
        n == auto_min_len_spec(batch_len as nat, num_threads as nat),
{
    if batch_len <= num_threads {
        1
    } else {
        let raw = batch_len / (2 * num_threads);
        let at_least_one = if raw < 1 {
            1
        } else {
            raw
        };
        if at_least_one > 32 {
            32
        } else {
            at_least_one
        }
    }
}

impl LevelIndices {
    /// Number of active indices: the sizes of all skeletons together.
    pub fn active_indices(&self) -> (count: usize)
        requires
            total_len(self.ind_s.deep_view()) <= usize::MAX,
        ensures
            count == total_len(self.ind_s.deep_view()),
    {
        let ghost all = self.ind_s.deep_view();
        let n = self.ind_s.len();
        let mut count: usize = 0;
        let mut k: usize = 0;
        while k < n
            invariant
                n == all.len(),
                all == self.ind_s.deep_view(),
                total_len(all) <= usize::MAX,
                0 <= k <= n,
                count == total_len(all.take(k as int)),
            decreases n - k,
        {
            proof {
                assert(all.take(k + 1).drop_last() =~= all.take(k as int));
                lemma_total_len_prefix(all, k + 1);
                assert(all[k as int] == self.ind_s@[k as int]@);
            }
            count = count + self.ind_s[k].len();
            k = k + 1;
        }
        proof {
            assert(all.take(n as int) =~= all);
        }
        count
    }

    /// Number of boxes that hold skeleton indices.
    pub fn active_boxes(&self) -> (count: usize)
        ensures
            count == self.ind_s@.filter(|v: Vec<usize>| v@.len() > 0).len(),
    {
        let ghost keep = |v: Vec<usize>| v@.len() > 0;
        let n = self.ind_s.len();
        let mut count: usize = 0;
        let mut k: usize = 0;
        while k < n
            invariant
                n == self.ind_s@.len(),
                0 <= k <= n,
                keep == (|v: Vec<usize>| v@.len() > 0),
                count == self.ind_s@.take(k as int).filter(keep).len(),
                count <= k,
            decreases n - k,
        {
            proof {
                reveal(Seq::filter);
                assert(self.ind_s@.take(k + 1).drop_last() =~= self.ind_s@.take(k as int));
            }
            if self.ind_s[k].len() > 0 {
                count = count + 1;
            }
            k = k + 1;
        }
        proof {
            assert(self.ind_s@.take(n as int) =~= self.ind_s@);
        }
        count
    }
}

/// Sums of prefixes of the sizes grow.
proof fn lemma_total_len_prefix(all: Seq<Seq<usize>>, k: int)
    requires
        0 <= k <= all.len(),
    ensures
        total_len(all.take(k)) <= total_len(all),
    decreases all.len() - k,
{
    if k < all.len() {
        lemma_total_len_prefix(all, k + 1);
        assert(all.take(k + 1).drop_last() =~= all.take(k));
    } else {
        assert(all.take(k) =~= all);
    }
}

/// Sorts `items` by their second entry, increasing, keeping items with
/// equal entries in the order they had (`slice::sort_by_key`, a stable
/// sort).
#[verifier::external_body]
fn sort_by_load(items: &mut Vec<(usize, usize)>)
    ensures
        final(items)@.to_multiset() == old(items)@.to_multiset(),
        forall|a: int, b: int|
            #![trigger final(items)@[a], final(items)@[b]]
            0 <= a < b < final(items)@.len() ==> final(items)@[a].1 <= final(items)@[b].1,
        (forall|a: int, b: int|
            #![trigger old(items)@[a], old(items)@[b]]
            0 <= a < b < old(items)@.len() ==> old(items)@[a].0 < old(items)@[b].0) ==> (forall|
            a: int,
            b: int,
        |
            #![trigger final(items)@[a], final(items)@[b]]
            0 <= a < b < final(items)@.len() && final(items)@[a].1 == final(items)@[b].1
                ==> final(items)@[a].0 < final(items)@[b].0),
{
    items.sort_by_key(|item| item.1);
}

/// What box `b` weighs when the boxes of a level are ordered: its skeleton
/// indices and the indices of its near field.
pub open spec fn box_load(lv: LevelIndices, b: int) -> nat {
    lv.ind_s@[b]@.len() + gathered_indices(lv.near_inds.deep_view()[b], lv.target_inds.deep_view()).len()
}

/// The near-field lists of occupied boxes name boxes of the level, and the
/// load of each occupied box fits in a `usize`.
pub open spec fn loads_fit(lv: LevelIndices) -> bool {
    &&& lv.near_inds@.len() == lv.ind_s@.len()
    &&& forall|b: int|
        0 <= b < lv.ind_s@.len() && lv.ind_s@[b]@.len() > 0 ==> {
            &&& forall|k: int|
                0 <= k < lv.near_inds@[b]@.len() ==> #[trigger] lv.near_inds@[b]@[k]
                    < lv.target_inds@.len()
            &&& #[trigger] box_load(lv, b) <= usize::MAX
        }
}

/// `order` lists the occupied boxes of the level once each, by increasing
/// load, and by increasing index among equal loads.
pub open spec fn is_load_order(order: Seq<usize>, lv: LevelIndices) -> bool {
    &&& order.no_duplicates()
    &&& forall|b: int| 0 <= b < lv.ind_s@.len() && lv.ind_s@[b]@.len() > 0 ==> order.contains(b as usize)
    &&& forall|a: int| 0 <= a < order.len() ==> #[trigger] order[a] < lv.ind_s@.len() && lv.ind_s@[order[a] as int]@.len() > 0
    &&& forall|a: int, c: int|
        0 <= a < c < order.len() ==> box_load(lv, #[trigger] order[a] as int) < box_load(lv, #[trigger] order[c] as int)
            || (box_load(lv, order[a] as int) == box_load(lv, order[c] as int) && order[a] < order[c])
}

impl LevelIndices {
    /// The boxes a level works on and the samples it needs (the choices of
    /// sampling step of a level): the occupied boxes by increasing load; the samples
    /// `oversample` asks for the heaviest one; at the first level, at least
    /// `initial_num_samples`. The tolerance is given as in `oversample`.
    pub fn sampling_plan(
        &self,
        start: bool,
        oversampling: usize,
        fixed_rank: Option<usize>,
        min_num_samples: usize,
        initial_num_samples: usize,
    ) -> (plan: (Vec<usize>, usize, usize))
        requires
            loads_fit(*self),
            exists|b: int| 0 <= b < self.ind_s@.len() && self.ind_s@[b]@.len() > 0,
            forall|b: int|
                0 <= b < self.ind_s@.len() && self.ind_s@[b]@.len() > 0 ==> match fixed_rank {
                    None => box_load(*self, b) + (box_load(*self, b) / 100) * oversampling
                        <= usize::MAX,
                    Some(r) => box_load(*self, b) + r <= usize::MAX,
                },
        ensures
            is_load_order(plan.0@, *self),
            plan.0@.len() > 0,
            plan.1 == oversample_spec(
                box_load(*self, plan.0@.last() as int),
                oversampling as nat,
                fixed_rank,
                min_num_samples as nat,
            ),
            plan.2 == if start && initial_num_samples > plan.1 {
                initial_num_samples
            } else {
                plan.1
            },
            forall|b: int|
                0 <= b < self.ind_s@.len() && self.ind_s@[b]@.len() > 0 ==> plan.1 >= oversample_spec(
                    #[trigger] box_load(*self, b),
                    oversampling as nat,
                    fixed_rank,
                    min_num_samples as nat,
                ),
            plan.2 >= plan.1,
    {
        let n = self.ind_s.len();
        let mut items: Vec<(usize, usize)> = Vec::new();
        let mut b: usize = 0;
        while b < n
            invariant
                n == self.ind_s@.len(),
                loads_fit(*self),
                0 <= b <= n,
                forall|q: int| 0 <= q < items@.len() ==> (#[trigger] items@[q]).0 < b && self.ind_s@[items@[q].0 as int]@.len() > 0
                    && items@[q].1 == box_load(*self, items@[q].0 as int),
                forall|q: int, r: int| 0 <= q < r < items@.len() ==> #[trigger] items@[q].0 < #[trigger] items@[r].0,
                forall|c: int| 0 <= c < b && self.ind_s@[c]@.len() > 0 ==> exists|q: int| 0 <= q < items@.len() && #[trigger] items@[q].0 == c,
            decreases n - b,
        {
            let ghost before = items@;
            if self.ind_s[b].len() > 0 {
                proof {
                    assert(self.ind_s@[b as int]@.len() > 0);
                    assert(box_load(*self, b as int) <= usize::MAX);
                }
                let near = self.get_near_indices(b);
                let load = self.ind_s[b].len() + near.len();
                items.push((b, load));
                proof {
                    assert(items@[items@.len() - 1].0 == b);
                }
            }
            proof {
                assert forall|c: int| 0 <= c < b + 1 && self.ind_s@[c]@.len() > 0 implies exists|q: int|
                    0 <= q < items@.len() && #[trigger] items@[q].0 == c by {
                    if c < b {
                        let q = choose|q: int| 0 <= q < before.len() && #[trigger] before[q].0 == c;
                        assert(items@[q] == before[q]);
                    } else {
                        assert(items@[items@.len() - 1].0 == c);
                    }
                }
            }
            b = b + 1;
        }
        let ghost unsorted = items@;
        sort_by_load(&mut items);
        let m = items.len();
        let mut order: Vec<usize> = Vec::new();
        let mut k: usize = 0;
        while k < m
            invariant
                m == items@.len(),
                0 <= k <= m,
                order@.len() == k,
                forall|q: int| 0 <= q < k ==> #[trigger] order@[q] == items@[q].0,
            decreases m - k,
        {
            order.push(items[k].0);
            k = k + 1;
        }
        proof {
            unsorted.to_multiset_ensures();
            items@.to_multiset_ensures();
            assert forall|a: int| 0 <= a < m implies #[trigger] items@[a].1 == box_load(*self, items@[a].0 as int)
                && items@[a].0 < n && self.ind_s@[items@[a].0 as int]@.len() > 0 by {
                assert(items@.contains(items@[a]));
                assert(items@.to_multiset().count(items@[a]) > 0);
                assert(unsorted.to_multiset().count(items@[a]) > 0);
                assert(unsorted.contains(items@[a]));
            }
            assert(order@.no_duplicates()) by {
                assert forall|a: int, c: int| 0 <= a < order@.len() && 0 <= c < order@.len() && a != c implies order@[a] != order@[c] by {
                    if order@[a] == order@[c] {
                        assert(items@[a].1 == items@[c].1);
                    }
                }
            }
            assert forall|c: int| 0 <= c < n && self.ind_s@[c]@.len() > 0 implies order@.contains(c as usize) by {
                let q = choose|q: int| 0 <= q < unsorted.len() && #[trigger] unsorted[q].0 == c;
                assert(unsorted.contains(unsorted[q]));
                assert(unsorted.to_multiset().count(unsorted[q]) > 0);
                assert(items@.to_multiset().count(unsorted[q]) > 0);
                assert(items@.contains(unsorted[q]));
                let w = choose|w: int| 0 <= w < items@.len() && items@[w] == unsorted[q];
                assert(order@[w] == c);
            }
            assert forall|a: int, c: int|
                0 <= a < c < order@.len() implies box_load(*self, #[trigger] order@[a] as int) < box_load(*self, #[trigger] order@[c] as int)
                || (box_load(*self, order@[a] as int) == box_load(*self, order@[c] as int) && order@[a] < order@[c]) by {
                assert(items@[a].1 <= items@[c].1);
            }
            assert(is_load_order(order@, *self));
        }
        let last = order[m - 1];
        proof {
            assert(self.ind_s@[last as int]@.len() > 0);
        }
        let near = self.get_near_indices(last);
        let load = self.ind_s[last].len() + near.len();
        let min_oversamples = oversample(load, oversampling, fixed_rank, min_num_samples);
        let min_samples = if start && initial_num_samples > min_oversamples {
            initial_num_samples
        } else {
            min_oversamples
        };
        proof {
            assert forall|c: int| 0 <= c < self.ind_s@.len() && self.ind_s@[c]@.len() > 0 implies min_oversamples >= oversample_spec(
                #[trigger] box_load(*self, c),
                oversampling as nat,
                fixed_rank,
                min_num_samples as nat,
            ) by {
                assert(order@.contains(c as usize));
                let w = choose|w: int| 0 <= w < order@.len() && order@[w] == c as usize;
                if w < m - 1 {
                    assert(box_load(*self, order@[w] as int) <= box_load(*self, order@[m - 1] as int));
                }
                lemma_oversample_monotone(box_load(*self, c), box_load(*self, last as int), oversampling as nat, fixed_rank, min_num_samples as nat);
            }
        }
        (order, min_oversamples, min_samples)
    }
}

impl LevelIndices {
    /// Records the compression of box `box_ind` found by its ID (the
    /// bookkeeping of the ID step of a level): the box keeps
    /// `target` as its indices and `skel` as its skeleton, and its redundant
    /// indices `redundant` join those of the level.
    pub fn record_compression(
        &mut self,
        box_ind: usize,
        target: Vec<usize>,
        skel: Vec<usize>,
        redundant: Vec<usize>,
    )
        requires
            box_ind < old(self).target_inds@.len(),
            box_ind < old(self).ind_s@.len(),
        ensures
            final(self).target_inds@ == old(self).target_inds@.update(box_ind as int, target),
            final(self).ind_s@ == old(self).ind_s@.update(box_ind as int, skel),
            final(self).ind_r@ == old(self).ind_r@.push(redundant),
            final(self).near_inds@ == old(self).near_inds@,
            final(self).box_types@ == old(self).box_types@,
    {
        self.target_inds.set(box_ind, target);
        self.ind_s.set(box_ind, skel);
        self.ind_r.push(redundant);
    }
}

/// Samples the ID of box `b` asks for: `oversample` of its load.
pub open spec fn id_key(lv: LevelIndices, b: int, oversampling: nat, fixed_rank: Option<usize>, ms: nat) -> nat {
    oversample_spec(box_load(lv, b), oversampling, fixed_rank, ms)
}

/// The boxes listed in `boxes` can be weighed: they are boxes of the level
/// whose near-field lists name boxes of the level, and the samples asked for
/// each fit in a `usize`.
pub open spec fn id_keys_fit(lv: LevelIndices, boxes: Seq<usize>, oversampling: nat, fixed_rank: Option<usize>) -> bool {
    &&& lv.near_inds@.len() == lv.ind_s@.len()
    &&& forall|i: int|
        0 <= i < boxes.len() ==> {
            &&& #[trigger] boxes[i] < lv.ind_s@.len()
            &&& forall|k: int|
                0 <= k < lv.near_inds@[boxes[i] as int]@.len() ==> #[trigger] lv.near_inds@[boxes[i] as int]@[k]
                    < lv.target_inds@.len()
            &&& match fixed_rank {
                None => box_load(lv, boxes[i] as int) + (box_load(lv, boxes[i] as int) / 100) * oversampling
                    <= usize::MAX,
                Some(r) => box_load(lv, boxes[i] as int) + r <= usize::MAX,
            }
        }
}

/// `pos` lists the positions of `boxes` once each, by increasing key and, among
/// equal keys, increasing position, and `order` holds the boxes at those
/// positions (`keys[i]` is the key of `boxes[i]`).
pub open spec fn sorted_positions(pos: Seq<int>, order: Seq<usize>, boxes: Seq<usize>, keys: Seq<nat>) -> bool {
    &&& pos.len() == boxes.len()
    &&& order.len() == boxes.len()
    &&& forall|i: int| 0 <= i < pos.len() ==> 0 <= #[trigger] pos[i] < boxes.len() && order[i] == boxes[pos[i]]
    &&& forall|i: int, j: int| 0 <= i < j < pos.len() ==> #[trigger] pos[i] != #[trigger] pos[j]
    &&& forall|i: int, j: int|
        0 <= i < j < pos.len() ==> keys[#[trigger] pos[i]] < keys[#[trigger] pos[j]] || (keys[pos[i]] == keys[pos[j]]
            && pos[i] < pos[j])
}

/// `order` is `boxes` stably sorted by `keys`.
pub open spec fn stable_key_order(order: Seq<usize>, boxes: Seq<usize>, keys: Seq<nat>) -> bool {
    exists|pos: Seq<int>| #[trigger] sorted_positions(pos, order, boxes, keys)
}

/// The keys of the ID step of a level for the boxes `boxes`.
pub open spec fn id_keys(lv: LevelIndices, boxes: Seq<usize>, oversampling: nat, fixed_rank: Option<usize>, ms: nat) -> Seq<nat> {
    Seq::new(boxes.len(), |i: int| id_key(lv, boxes[i] as int, oversampling, fixed_rank, ms))
}

/// The entries of `items` whose flag in `keep` is set, in order.
pub open spec fn selected(items: Seq<usize>, keep: Seq<bool>) -> Seq<usize>
    decreases items.len(),
{
    if items.len() == 0 {
        Seq::empty()
    } else {
        let rest = selected(items.drop_last(), keep);
        if keep[items.len() - 1] {
            rest.push(items.last())
        } else {
            rest
        }
    }
}

impl LevelIndices {
    /// The order in which the ID step of a level takes the boxes `boxes`: by
    /// the samples `oversample` asks for each box, keeping the order of boxes
    /// that ask for as many. The tolerance is given as in `oversample`.
    pub fn id_order(&self, boxes: &[usize], oversampling: usize, fixed_rank: Option<usize>, min_num_samples: usize) -> (order: Vec<usize>)
        requires
            id_keys_fit(*self, boxes@, oversampling as nat, fixed_rank),
        ensures
            stable_key_order(
                order@,
                boxes@,
                id_keys(*self, boxes@, oversampling as nat, fixed_rank, min_num_samples as nat),
            ),
    {
        let ghost keys = id_keys(*self, boxes@, oversampling as nat, fixed_rank, min_num_samples as nat);
        let n = boxes.len();
        let mut items: Vec<(usize, usize)> = Vec::new();
        let mut k: usize = 0;
        while k < n
            invariant
                n == boxes@.len(),
                keys == id_keys(*self, boxes@, oversampling as nat, fixed_rank, min_num_samples as nat),
                id_keys_fit(*self, boxes@, oversampling as nat, fixed_rank),
                0 <= k <= n,
                items@.len() == k,
                forall|q: int| 0 <= q < k ==> (#[trigger] items@[q]).0 == q && items@[q].1 == keys[q],
            decreases n - k,
        {
            let b = boxes[k];
            proof {
                assert(b < self.ind_s@.len());
            }
            let near = self.get_near_indices(b);
            let load = self.ind_s[b].len() + near.len();
            let key = oversample(load, oversampling, fixed_rank, min_num_samples);
            items.push((k, key));
            k = k + 1;
        }
        let ghost unsorted = items@;
        sort_by_load(&mut items);
        proof {
            unsorted.to_multiset_ensures();
            items@.to_multiset_ensures();
            assert forall|a: int| 0 <= a < n implies #[trigger] items@[a].0 < n && items@[a].1 == keys[items@[a].0 as int] by {
                assert(items@.contains(items@[a]));
                assert(items@.to_multiset().count(items@[a]) > 0);
                assert(unsorted.to_multiset().count(items@[a]) > 0);
                assert(unsorted.contains(items@[a]));
            }
        }
        let mut order: Vec<usize> = Vec::new();
        let mut k: usize = 0;
        while k < n
            invariant
                n == items@.len(),
                n == boxes@.len(),
                forall|a: int| 0 <= a < n ==> #[trigger] items@[a].0 < n,
                0 <= k <= n,
                order@.len() == k,
                forall|q: int| 0 <= q < k ==> #[trigger] order@[q] == boxes@[items@[q].0 as int],
            decreases n - k,
        {
            order.push(boxes[items[k].0]);
            k = k + 1;
        }
        proof {
            let pos = Seq::new(n as nat, |i: int| items@[i].0 as int);
            assert forall|i: int, j: int| 0 <= i < j < pos.len() implies #[trigger] pos[i] != #[trigger] pos[j] by {
                if pos[i] == pos[j] {
                    assert(items@[i].1 == items@[j].1);
                }
            }
            assert forall|i: int, j: int| 0 <= i < j < pos.len() implies keys[#[trigger] pos[i]] < keys[#[trigger] pos[j]]
                || (keys[pos[i]] == keys[pos[j]] && pos[i] < pos[j]) by {
                assert(items@[i].1 <= items@[j].1);
            }
            assert(sorted_positions(pos, order@, boxes@, keys));
        }
        order
    }
}

/// The boxes of `order` whose ID compressed them (`low_rank` set at their
/// position), in order: the boxes the LU step of the level works on.
pub fn low_rank_boxes(order: &[usize], low_rank: &[bool]) -> (boxes: Vec<usize>)
    requires
        low_rank@.len() == order@.len(),
    ensures
        boxes@ == selected(order@, low_rank@),
{
    let n = order.len();
    let mut boxes: Vec<usize> = Vec::new();
    let mut k: usize = 0;
    while k < n
        invariant
            n == order@.len(),
            low_rank@.len() == n,
            0 <= k <= n,
            boxes@ == selected(order@.take(k as int), low_rank@),
        decreases n - k,
    {
        proof {
            assert(order@.take(k + 1).drop_last() =~= order@.take(k as int));
        }
        if low_rank[k] {
            boxes.push(order[k]);
        }
        k = k + 1;
    }
    proof {
        assert(order@.take(n as int) =~= order@);
    }
    boxes
}

/// What the ID step found for one box of a batch: whether it compressed the
/// box, how many redundant indices it left and how many indices the box's
/// near field holds.
#[derive(Debug, Clone, Copy, PartialEq, Eq)]
pub struct BoxIdOutcome {
    pub low_rank: bool,
    pub ind_r_len: usize,
    pub near_len: usize,
}

/// Whether the LU step gives a box with this outcome a factor: the ID
/// compressed it, it has redundant indices and its near field holds more
/// indices than them.
pub open spec fn gets_lu(o: BoxIdOutcome) -> bool {
    o.low_rank && o.ind_r_len > 0 && o.near_len > o.ind_r_len
}

/// The low-rank flags of the outcomes.
pub open spec fn low_rank_flags(outcomes: Seq<BoxIdOutcome>) -> Seq<bool> {
    Seq::new(outcomes.len(), |i: int| outcomes[i].low_rank)
}

/// The flags of the outcomes that get an LU factor.
pub open spec fn lu_flags(outcomes: Seq<BoxIdOutcome>) -> Seq<bool> {
    Seq::new(outcomes.len(), |i: int| gets_lu(outcomes[i]))
}

/// The outcome of one batch of the joint ID and LU step: the boxes its ID
/// step compressed, and those of them its LU step factorises, in the
/// batch's order.
#[derive(Debug, Clone, PartialEq, Eq)]
pub struct BatchPlan {
    pub compressed: Vec<usize>,
    pub lu_boxes: Vec<usize>,
}

/// The decisions of one batch of the joint ID and LU step, from the ID
/// outcomes of its boxes (`outcomes[i]` is that of `batch[i]`): the
/// compressed boxes go on to the LU step, which factorises those with
/// redundant indices and a larger near field.
pub fn batch_plan(batch: &[usize], outcomes: &[BoxIdOutcome]) -> (plan: BatchPlan)
    requires
        outcomes@.len() == batch@.len(),
    ensures
        plan.compressed@ == selected(batch@, low_rank_flags(outcomes@)),
        plan.lu_boxes@ == selected(batch@, lu_flags(outcomes@)),
{
    let n = batch.len();
    let mut compressed: Vec<usize> = Vec::new();
    let mut lu_boxes: Vec<usize> = Vec::new();
    let mut k: usize = 0;
    while k < n
        invariant
            n == batch@.len(),
            outcomes@.len() == n,
            0 <= k <= n,
            compressed@ == selected(batch@.take(k as int), low_rank_flags(outcomes@)),
            lu_boxes@ == selected(batch@.take(k as int), lu_flags(outcomes@)),
        decreases n - k,
    {
        proof {
            assert(batch@.take(k + 1).drop_last() =~= batch@.take(k as int));
        }
        let o = outcomes[k];
        if o.low_rank {
            compressed.push(batch[k]);
            if o.ind_r_len > 0 && o.near_len > o.ind_r_len {
                lu_boxes.push(batch[k]);
            }
        }
        k = k + 1;
    }
    proof {
        assert(batch@.take(n as int) =~= batch@);
    }
    BatchPlan { compressed, lu_boxes }
}

/// Number of boxes the ID step compresses over all batches.
pub open spec fn compressed_count(batches: Seq<Seq<usize>>, outcomes: Seq<Vec<BoxIdOutcome>>) -> nat
    decreases batches.len(),
{
    if batches.len() == 0 {
        0
    } else {
        compressed_count(batches.drop_last(), outcomes) + selected(
            batches.last(),
            low_rank_flags(outcomes[batches.len() - 1]@),
        ).len()
    }
}

/// The outcome of the joint ID and LU step of a level: one plan per batch,
/// and the number of boxes compressed.
#[derive(Debug, Clone, PartialEq, Eq)]
pub struct LevelPlan {
    pub batches: Vec<BatchPlan>,
    pub dec_boxes: usize,
}

/// The decisions of the joint ID and LU step of a level, from the batches
/// of boxes whose near fields do not overlap and the ID outcomes of their
/// boxes: each batch is planned on its own, in order, and the compressed
/// boxes are counted.
pub fn level_plan(batches: &Vec<Vec<usize>>, outcomes: &Vec<Vec<BoxIdOutcome>>) -> (plan: LevelPlan)
    requires
        outcomes@.len() == batches@.len(),
        forall|g: int| 0 <= g < batches@.len() ==> (#[trigger] outcomes@[g])@.len() == batches@[g]@.len(),
        total_len(batches.deep_view()) <= usize::MAX,
    ensures
        plan.batches@.len() == batches@.len(),
        forall|g: int|
            0 <= g < batches@.len() ==> (#[trigger] plan.batches@[g]).compressed@ == selected(
                batches@[g]@,
                low_rank_flags(outcomes@[g]@),
            ) && plan.batches@[g].lu_boxes@ == selected(batches@[g]@, lu_flags(outcomes@[g]@)),
        plan.dec_boxes == compressed_count(batches.deep_view(), outcomes@),
{
    let ghost bs = batches.deep_view();
    let ghost os = outcomes@;
    let n = batches.len();
    let mut plans: Vec<BatchPlan> = Vec::new();
    let mut dec_boxes: usize = 0;
    let mut g: usize = 0;
    while g < n
        invariant
            n == batches@.len(),
            bs == batches.deep_view(),
            os == outcomes@,
            outcomes@.len() == n,
            forall|h: int| 0 <= h < n ==> (#[trigger] outcomes@[h])@.len() == batches@[h]@.len(),
            total_len(bs) <= usize::MAX,
            0 <= g <= n,
            plans@.len() == g,
            forall|h: int|
                0 <= h < g ==> (#[trigger] plans@[h]).compressed@ == selected(batches@[h]@, low_rank_flags(outcomes@[h]@))
                    && plans@[h].lu_boxes@ == selected(batches@[h]@, lu_flags(outcomes@[h]@)),
            dec_boxes == compressed_count(bs.take(g as int), os),
            dec_boxes <= total_len(bs.take(g as int)),
        decreases n - g,
    {
        let plan = batch_plan(batches[g].as_slice(), outcomes[g].as_slice());
        proof {
            let t = bs.take(g + 1);
            assert(t.drop_last() =~= bs.take(g as int));
            assert(t.last() == batches@[g as int]@);
            lemma_selected_len(batches@[g as int]@, low_rank_flags(outcomes@[g as int]@));
            lemma_total_len_prefix(bs, g + 1);
        }
        dec_boxes = dec_boxes + plan.compressed.len();
        plans.push(plan);
        g = g + 1;
    }
    proof {
        assert(bs.take(n as int) =~= bs);
    }
    LevelPlan { batches: plans, dec_boxes }
}

/// A selection holds no more entries than it selects from, each of them
/// one of those.
pub proof fn lemma_selected_len(items: Seq<usize>, keep: Seq<bool>)
    ensures
        selected(items, keep).len() <= items.len(),
        forall|x: usize| selected(items, keep).contains(x) ==> items.contains(x),
    decreases items.len(),
{
    if items.len() > 0 {
        lemma_selected_len(items.drop_last(), keep);
        let rest = selected(items.drop_last(), keep);
        assert forall|x: usize| selected(items, keep).contains(x) implies items.contains(x) by {
            if rest.contains(x) {
                assert(items.drop_last().contains(x));
                let j = choose|j: int| 0 <= j < items.drop_last().len() && items.drop_last()[j] == x;
                assert(items[j] == x);
            } else {
                assert(x == items.last());
                assert(items[items.len() - 1] == x);
            }
        }
    }
}

/// Selecting with fewer flags set keeps a part of the selection: what the
/// flags `fewer` select, the flags `more` select too.
proof fn lemma_selected_subset(items: Seq<usize>, more: Seq<bool>, fewer: Seq<bool>)
    requires
        forall|i: int| 0 <= i < items.len() && #[trigger] fewer[i] ==> more[i],
    ensures
        forall|x: usize| selected(items, fewer).contains(x) ==> selected(items, more).contains(x),
    decreases items.len(),
{
    if items.len() > 0 {
        let init = items.drop_last();
        assert forall|i: int| 0 <= i < init.len() && #[trigger] fewer[i] implies more[i] by {
            assert(fewer[i] ==> more[i]);
        }
        lemma_selected_subset(init, more, fewer);
        let last = (items.len() - 1) as int;
        assert(fewer[last] ==> more[last]);
        assert forall|x: usize| selected(items, fewer).contains(x) implies selected(items, more).contains(x) by {
            let rm = selected(init, more);
            if selected(init, fewer).contains(x) {
                assert(rm.contains(x));
                if more[last] {
                    let j = choose|j: int| 0 <= j < rm.len() && rm[j] == x;
                    assert(rm.push(items.last())[j] == x);
                }
            } else {
                assert(fewer[last] && x == items.last());
                assert(rm.push(items.last())[rm.len() as int] == x);
            }
        }
    }
}

/// In every batch of the joint ID and LU step, the LU step only factorises
/// boxes the ID step compressed, and those are boxes of the batch.
pub proof fn lemma_lu_only_on_compressed(batch: Seq<usize>, outcomes: Seq<BoxIdOutcome>)
    requires
        outcomes.len() == batch.len(),
    ensures
        forall|b: usize|
            selected(batch, lu_flags(outcomes)).contains(b) ==> selected(batch, low_rank_flags(outcomes)).contains(b),
        forall|b: usize| selected(batch, low_rank_flags(outcomes)).contains(b) ==> batch.contains(b),
{
    let more = low_rank_flags(outcomes);
    let fewer = lu_flags(outcomes);
    assert forall|i: int| 0 <= i < batch.len() && #[trigger] fewer[i] implies more[i] by {
        assert(gets_lu(outcomes[i]));
    }
    lemma_selected_subset(batch, more, fewer);
    lemma_selected_len(batch, more);
}

/// Number of leaves a box adds when its ID is done: one for a box compressed
/// to the tolerance whose ID found a low rank, else none.
pub fn leaf_count(box_type: BoxType, low_rank: bool) -> (count: usize)
    ensures
        count == (if box_type == BoxType::Full && low_rank {
            1usize
        } else {
            0usize
        }),
{
    match box_type {
        BoxType::Merged(_) => 0,
        BoxType::Full => if low_rank {
            1
        } else {
            0
        },
    }
}

} // verus!
