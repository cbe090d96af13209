//! Batches of boxes whose near fields do not overlap.
use vstd::prelude::*;
use rustc_hash::FxHashSet;
use crate::levels::LevelIndices;

verus! {

/// The hasher that `FxHashSet` is built with.
#[verifier::external_type_specification]
#[verifier::external_body]
pub struct ExFxBuildHasher(rustc_hash::FxBuildHasher);

/// The indices that an `FxHashSet` holds.
pub uninterp spec fn fx_contents(set: FxHashSet<usize>) -> Set<usize>;

/// An empty set (`FxHashSet::default`).
#[verifier::external_body]
fn fx_set_new() -> (set: FxHashSet<usize>)
    ensures
        fx_contents(set) == Set::<usize>::empty(),
{
    FxHashSet::default()
}

/// Adds `value` to the set (`HashSet::insert`).
#[verifier::external_body]
fn fx_set_insert(set: &mut FxHashSet<usize>, value: usize)
    ensures
        fx_contents(*final(set)) == fx_contents(*old(set)).insert(value),
{
    set.insert(value);
}

/// Whether the set holds `value` (`HashSet::contains`).
#[verifier::external_body]
fn fx_set_contains(set: &FxHashSet<usize>, value: usize) -> (found: bool)
    ensures
        found == fx_contents(*set).contains(value),
{
    set.contains(&value)
}

/// Sorts `nodes` by decreasing degree (the second entry), keeping nodes of
/// equal degree in the order they had (`slice::sort_by_key` with
/// `Reverse`, a stable sort).
#[verifier::external_body]
fn sort_by_degree_desc(nodes: &mut Vec<(usize, usize)>)
    ensures
        final(nodes)@.to_multiset() == old(nodes)@.to_multiset(),
        forall|a: int, b: int|
            #![trigger final(nodes)@[a], final(nodes)@[b]]
            0 <= a < b < final(nodes)@.len() ==> final(nodes)@[a].1 >= final(nodes)@[b].1,
        (forall|a: int, b: int|
            #![trigger old(nodes)@[a], old(nodes)@[b]]
            0 <= a < b < old(nodes)@.len() ==> old(nodes)@[a].0 < old(nodes)@[b].0) ==> (forall|
            a: int,
            b: int,
        |
            #![trigger final(nodes)@[a], final(nodes)@[b]]
            0 <= a < b < final(nodes)@.len() && final(nodes)@[a].1 == final(nodes)@[b].1
                ==> final(nodes)@[a].0 < final(nodes)@[b].0),
{
    nodes.sort_by_key(|&(_, degree)| std::cmp::Reverse(degree));
}

/// Box `x` of the current batch holds skeleton indices.
pub open spec fn in_play(current: Set<usize>, ind_s: Seq<Seq<usize>>, x: usize) -> bool {
    current.contains(x) && ind_s[x as int].len() > 0
}

/// Number of entries of the near-field list `list` that are in play.
pub open spec fn degree(list: Seq<usize>, current: Set<usize>, ind_s: Seq<Seq<usize>>) -> nat {
    list.filter(|x: usize| in_play(current, ind_s, x)).len()
}

/// What a group reserves when box `g` with near-field list `list` joins it:
/// `g` and its neighbours in play.
pub open spec fn reserved(list: Seq<usize>, current: Set<usize>, ind_s: Seq<Seq<usize>>, g: usize) -> Set<
    usize,
> {
    Set::new(|x: usize| x == g || (list.contains(x) && in_play(current, ind_s, x)))
}

/// Box `g` with near-field list `list` cannot join a group that reserved
/// `taken`: one of its neighbours in play is taken.
pub open spec fn conflicts(
    list: Seq<usize>,
    current: Set<usize>,
    ind_s: Seq<Seq<usize>>,
    taken: Set<usize>,
) -> bool {
    exists|k: int| 0 <= k < list.len() && in_play(current, ind_s, list[k]) && taken.contains(#[trigger] list[k])
}

/// The first group from `j` on that box `g` can join.
pub open spec fn first_fit(
    sets: Seq<Set<usize>>,
    list: Seq<usize>,
    current: Set<usize>,
    ind_s: Seq<Seq<usize>>,
    j: int,
) -> Option<int>
    decreases sets.len() - j,
{
    if j < 0 || j >= sets.len() {
        None
    } else if !conflicts(list, current, ind_s, sets[j]) {
        Some(j)
    } else {
        first_fit(sets, list, current, ind_s, j + 1)
    }
}

/// The groups, as what each reserved and the local indices in it, after
/// the first `k` boxes of `order` were placed: each box with skeleton
/// indices joins the first group it can join, or opens a new one.
pub open spec fn greedy_groups(
    order: Seq<usize>,
    boxes: Seq<usize>,
    near: Seq<Seq<usize>>,
    ind_s: Seq<Seq<usize>>,
    k: int,
) -> (Seq<Set<usize>>, Seq<Seq<usize>>)
    decreases k,
{
    if k <= 0 {
        (Seq::empty(), Seq::empty())
    } else {
        let (sets, groups) = greedy_groups(order, boxes, near, ind_s, k - 1);
        let ind = order[k - 1];
        let g = boxes[ind as int];
        let current = boxes.to_set();
        let list = near[g as int];
        if ind_s[g as int].len() == 0 {
            (sets, groups)
        } else {
            match first_fit(sets, list, current, ind_s, 0) {
                Some(j) => (
                    sets.update(j, sets[j].union(reserved(list, current, ind_s, g))),
                    groups.update(j, groups[j].push(ind)),
                ),
                None => (sets.push(reserved(list, current, ind_s, g)), groups.push(seq![ind])),
            }
        }
    }
}

/// `order` lists the local indices `0..boxes.len()` once each, by
/// decreasing degree, and by increasing index among equal degrees.
pub open spec fn is_degree_order(
    order: Seq<usize>,
    boxes: Seq<usize>,
    near: Seq<Seq<usize>>,
    ind_s: Seq<Seq<usize>>,
) -> bool {
    let deg = |i: usize| degree(near[boxes[i as int] as int], boxes.to_set(), ind_s);
    &&& order.len() == boxes.len()
    &&& order.no_duplicates()
    &&& forall|a: int| 0 <= a < order.len() ==> #[trigger] order[a] < boxes.len()
    &&& forall|a: int, b: int|
        0 <= a < b < order.len() ==> deg(#[trigger] order[a]) > deg(#[trigger] order[b]) || (deg(
            order[a],
        ) == deg(order[b]) && order[a] < order[b])
}

/// Groups that skipped an earlier group that conflicts start the search
/// later.
proof fn lemma_first_fit_skip(
    sets: Seq<Set<usize>>,
    list: Seq<usize>,
    current: Set<usize>,
    ind_s: Seq<Seq<usize>>,
    j: int,
)
    requires
        0 <= j <= sets.len(),
        forall|i: int| 0 <= i < j ==> conflicts(list, current, ind_s, #[trigger] sets[i]),
    ensures
        first_fit(sets, list, current, ind_s, 0) == first_fit(sets, list, current, ind_s, j),
    decreases j,
{
    if j > 0 {
        lemma_first_fit_skip(sets, list, current, ind_s, j - 1);
    }
}

/// The contents of each set.
pub open spec fn contents_of(sets: Seq<FxHashSet<usize>>) -> Seq<Set<usize>> {
    sets.map_values(|s: FxHashSet<usize>| fx_contents(s))
}

/// Number of entries of `list` in play, counted by looking each up.
fn count_in_play(
    list: &Vec<usize>,
    current: &FxHashSet<usize>,
    ind_s: &Vec<Vec<usize>>,
    Ghost(cur): Ghost<Set<usize>>,
) -> (count: usize)
    requires
        fx_contents(*current) == cur,
        forall|x: usize| cur.contains(x) ==> x < ind_s@.len(),
    ensures
        count == degree(list@, cur, ind_s.deep_view()),
{
    let ghost keep = |x: usize| in_play(cur, ind_s.deep_view(), x);
    let n = list.len();
    let mut count: usize = 0;
    let mut k: usize = 0;
    while k < n
        invariant
            n == list@.len(),
            0 <= k <= n,
            fx_contents(*current) == cur,
            forall|x: usize| cur.contains(x) ==> x < ind_s@.len(),
            keep == (|x: usize| in_play(cur, ind_s.deep_view(), x)),
            count == list@.take(k as int).filter(keep).len(),
            count <= k,
        decreases n - k,
    {
        let x = list[k];
        proof {
            reveal(Seq::filter);
            assert(list@.take(k + 1).drop_last() =~= list@.take(k as int));
        }
        if fx_set_contains(current, x) && ind_s[x].len() > 0 {
            proof {
                assert(keep(x));
            }
            count = count + 1;
        } else {
            proof {
                assert(!keep(x));
            }
        }
        k = k + 1;
    }
    proof {
        assert(list@.take(n as int) =~= list@);
    }
    count
}

/// Whether a neighbour of `list` in play is in `taken`.
fn has_conflict(
    list: &Vec<usize>,
    current: &FxHashSet<usize>,
    ind_s: &Vec<Vec<usize>>,
    taken: &FxHashSet<usize>,
    Ghost(cur): Ghost<Set<usize>>,
) -> (found: bool)
    requires
        fx_contents(*current) == cur,
        forall|x: usize| cur.contains(x) ==> x < ind_s@.len(),
    ensures
        found == conflicts(list@, cur, ind_s.deep_view(), fx_contents(*taken)),
{
    let n = list.len();
    let mut k: usize = 0;
    while k < n
        invariant
            n == list@.len(),
            0 <= k <= n,
            fx_contents(*current) == cur,
            forall|x: usize| cur.contains(x) ==> x < ind_s@.len(),
            forall|i: int|
                0 <= i < k ==> !(in_play(cur, ind_s.deep_view(), list@[i]) && fx_contents(
                    *taken,
                ).contains(#[trigger] list@[i])),
        decreases n - k,
    {
        let x = list[k];
        if fx_set_contains(current, x) && ind_s[x].len() > 0 && fx_set_contains(taken, x) {
            proof {
                assert(in_play(cur, ind_s.deep_view(), list@[k as int]));
            }
            return true;
        }
        k = k + 1;
    }
    false
}

/// Adds box `g` and its neighbours of `list` in play to `taken`.
fn reserve(
    taken: &mut FxHashSet<usize>,
    list: &Vec<usize>,
    current: &FxHashSet<usize>,
    ind_s: &Vec<Vec<usize>>,
    g: usize,
    Ghost(cur): Ghost<Set<usize>>,
)
    requires
        fx_contents(*current) == cur,
        forall|x: usize| cur.contains(x) ==> x < ind_s@.len(),
    ensures
        fx_contents(*final(taken)) == fx_contents(*old(taken)).union(
            reserved(list@, cur, ind_s.deep_view(), g),
        ),
{
    let ghost start = fx_contents(*taken);
    fx_set_insert(taken, g);
    let n = list.len();
    let mut k: usize = 0;
    while k < n
        invariant
            n == list@.len(),
            0 <= k <= n,
            fx_contents(*current) == cur,
            forall|x: usize| cur.contains(x) ==> x < ind_s@.len(),
            fx_contents(*taken) == start.union(
                Set::new(
                    |x: usize|
                        x == g || (list@.take(k as int).contains(x) && in_play(
                            cur,
                            ind_s.deep_view(),
                            x,
                        )),
                ),
            ),
        decreases n - k,
    {
        let x = list[k];
        let ghost before = fx_contents(*taken);
        let play = fx_set_contains(current, x) && ind_s[x].len() > 0;
        if play {
            fx_set_insert(taken, x);
        }
        proof {
            assert(play == in_play(cur, ind_s.deep_view(), x)) by {
                if cur.contains(x) {
                    assert(ind_s.deep_view()[x as int] == ind_s@[x as int]@);
                }
            }
            assert(list@.take(k + 1) =~= list@.take(k as int).push(x));
            assert forall|y: usize| list@.take(k + 1).contains(y) <==> (list@.take(k as int).contains(
                y,
            ) || y == x) by {
                if list@.take(k + 1).contains(y) {
                    let w = choose|w: int| 0 <= w < k + 1 && #[trigger] list@.take(k + 1)[w] == y;
                    if w < k {
                        assert(list@.take(k as int)[w] == y);
                    }
                }
                if list@.take(k as int).contains(y) {
                    let w = choose|w: int| 0 <= w < k && #[trigger] list@.take(k as int)[w] == y;
                    assert(list@.take(k + 1)[w] == y);
                }
                if y == x {
                    assert(list@.take(k + 1)[k as int] == y);
                }
            }
            let after = fx_contents(*taken);
            assert(after == if play {
                before.insert(x)
            } else {
                before
            });
            assert forall|y: usize| #[trigger] after.contains(y) <==> (start.contains(y) || y == g || (
            list@.take(k + 1).contains(y) && in_play(cur, ind_s.deep_view(), y))) by {
                assert(before.contains(y) <==> (start.contains(y) || y == g || (list@.take(
                    k as int,
                ).contains(y) && in_play(cur, ind_s.deep_view(), y))));
            }
            assert(after =~= start.union(
                Set::new(
                    |y: usize|
                        y == g || (list@.take(k + 1).contains(y) && in_play(
                            cur,
                            ind_s.deep_view(),
                            y,
                        )),
                ),
            ));
        }
        k = k + 1;
    }
    proof {
        assert(list@.take(n as int) =~= list@);
        assert(fx_contents(*taken) =~= start.union(reserved(list@, cur, ind_s.deep_view(), g)));
    }
}

impl LevelIndices {
    /// Splits the boxes `current_box_indices` into groups whose members can
    /// be processed together (`group_near_fields`): taken by decreasing
    /// number of near-field neighbours that hold skeleton indices, each
    /// occupied box joins the first group where none of those neighbours is
    /// reserved yet, or opens a new group; a group reserves its members and
    /// their occupied neighbours. Groups list positions in
    /// `current_box_indices`.
    pub fn group_near_fields(&self, current_box_indices: &[usize]) -> (groups: Vec<Vec<usize>>)
        requires
            forall|i: int|
                0 <= i < current_box_indices@.len() ==> #[trigger] current_box_indices@[i]
                    < self.near_inds@.len() && current_box_indices@[i] < self.ind_s@.len(),
        ensures
            exists|order: Seq<usize>|
                is_degree_order(
                    order,
                    current_box_indices@,
                    self.near_inds.deep_view(),
                    self.ind_s.deep_view(),
                ) && groups.deep_view() == greedy_groups(
                    order,
                    current_box_indices@,
                    self.near_inds.deep_view(),
                    self.ind_s.deep_view(),
                    current_box_indices@.len() as int,
                ).1,
    {
        let ghost boxes = current_box_indices@;
        let ghost near = self.near_inds.deep_view();
        let ghost skel = self.ind_s.deep_view();
        let ghost cur = boxes.to_set();
        let n = current_box_indices.len();
        let mut current = fx_set_new();
        let mut k: usize = 0;
        while k < n
            invariant
                n == boxes.len(),
                boxes == current_box_indices@,
                0 <= k <= n,
                fx_contents(current) == boxes.take(k as int).to_set(),
            decreases n - k,
        {
            let x = current_box_indices[k];
            fx_set_insert(&mut current, x);
            proof {
                assert(boxes.take(k + 1).to_set() =~= boxes.take(k as int).to_set().insert(x)) by {
                    assert forall|y: usize| #[trigger] boxes.take(k + 1).to_set().contains(y) <==> boxes.take(
                        k as int,
                    ).to_set().insert(x).contains(y) by {
                        if boxes.take(k + 1).contains(y) {
                            let w = choose|w: int| 0 <= w < k + 1 && #[trigger] boxes.take(k + 1)[w] == y;
                            if w < k {
                                assert(boxes.take(k as int)[w] == y);
                            }
                        }
                        if boxes.take(k as int).contains(y) {
                            let w = choose|w: int| 0 <= w < k && #[trigger] boxes.take(k as int)[w] == y;
                            assert(boxes.take(k + 1)[w] == y);
                        }
                        if y == x {
                            assert(boxes.take(k + 1)[k as int] == y);
                        }
                    }
                }
            }
            k = k + 1;
        }
        proof {
            assert(boxes.take(n as int) =~= boxes);
            assert forall|x: usize| cur.contains(x) implies x < self.ind_s@.len() by {
                let w = choose|w: int| 0 <= w < boxes.len() && boxes[w] == x;
                assert(current_box_indices@[w] < self.ind_s@.len());
            }
        }
        // Degrees, then the order in which boxes are placed.
        let mut nodes: Vec<(usize, usize)> = Vec::new();
        let mut i: usize = 0;
        while i < n
            invariant
                n == boxes.len(),
                boxes == current_box_indices@,
                near == self.near_inds.deep_view(),
                skel == self.ind_s.deep_view(),
                fx_contents(current) == cur,
                forall|x: usize| cur.contains(x) ==> x < self.ind_s@.len(),
                forall|c: int|
                    0 <= c < n ==> #[trigger] boxes[c] < self.near_inds@.len() && boxes[c]
                        < self.ind_s@.len(),
                0 <= i <= n,
                nodes@.len() == i,
                forall|c: int|
                    0 <= c < i ==> (#[trigger] nodes@[c]).0 == c && nodes@[c].1 == degree(
                        near[boxes[c] as int],
                        cur,
                        skel,
                    ),
            decreases n - i,
        {
            let g = current_box_indices[i];
            let d = count_in_play(&self.near_inds[g], &current, &self.ind_s, Ghost(cur));
            proof {
                assert(near[g as int] == self.near_inds@[g as int]@);
            }
            nodes.push((i, d));
            i = i + 1;
        }
        let ghost unsorted = nodes@;
        sort_by_degree_desc(&mut nodes);
        let ghost order = nodes@.map_values(|p: (usize, usize)| p.0);
        proof {
            let deg = |c: usize| degree(near[boxes[c as int] as int], cur, skel);
            unsorted.to_multiset_ensures();
            nodes@.to_multiset_ensures();
            assert forall|a: int| 0 <= a < nodes@.len() implies (#[trigger] nodes@[a]).0 == order[a]
                && nodes@[a].1 == deg(order[a]) && order[a] < n by {
                assert(nodes@.contains(nodes@[a]));
                assert(nodes@.to_multiset().count(nodes@[a]) > 0);
                assert(unsorted.to_multiset().count(nodes@[a]) > 0);
                assert(unsorted.contains(nodes@[a]));
                let w = choose|w: int| 0 <= w < unsorted.len() && unsorted[w] == nodes@[a];
                assert(unsorted[w].0 == w && unsorted[w].1 == deg(w as usize));
            }
            assert forall|a: int, b: int|
                0 <= a < b < order.len() implies deg(#[trigger] order[a]) > deg(#[trigger] order[b])
                || (deg(order[a]) == deg(order[b]) && order[a] < order[b]) by {
                assert(nodes@[a].1 == deg(order[a]));
                assert(nodes@[b].1 == deg(order[b]));
            }
            assert(order.no_duplicates()) by {
                assert forall|a: int, b: int|
                    0 <= a < order.len() && 0 <= b < order.len() && a != b implies order[a]
                    != order[b] by {
                    assert(nodes@[a].1 == deg(order[a]));
                    assert(nodes@[b].1 == deg(order[b]));
                }
            }
            assert(is_degree_order(order, boxes, near, skel));
        }
        // Place the boxes one by one.
        let mut sets: Vec<FxHashSet<usize>> = Vec::new();
        let mut groups: Vec<Vec<usize>> = Vec::new();
        let mut t: usize = 0;
        while t < n
            invariant
                n == boxes.len(),
                n == nodes@.len(),
                boxes == current_box_indices@,
                near == self.near_inds.deep_view(),
                skel == self.ind_s.deep_view(),
                fx_contents(current) == cur,
                cur == boxes.to_set(),
                forall|x: usize| cur.contains(x) ==> x < self.ind_s@.len(),
                forall|c: int|
                    0 <= c < n ==> #[trigger] boxes[c] < self.near_inds@.len() && boxes[c]
                        < self.ind_s@.len(),
                order == nodes@.map_values(|p: (usize, usize)| p.0),
                forall|a: int| 0 <= a < n ==> #[trigger] order[a] < n,
                0 <= t <= n,
                sets@.len() == groups@.len(),
                contents_of(sets@) == greedy_groups(order, boxes, near, skel, t as int).0,
                groups.deep_view() == greedy_groups(order, boxes, near, skel, t as int).1,
            decreases n - t,
        {
            let ind = nodes[t].0;
            proof {
                assert(order[t as int] == ind);
            }
            let g = current_box_indices[ind];
            let ghost list = near[g as int];
            let ghost before_sets = contents_of(sets@);
            let ghost before_groups = groups.deep_view();
            proof {
                assert(list == self.near_inds@[g as int]@);
                assert(skel[g as int] == self.ind_s@[g as int]@);
            }
            if self.ind_s[g].len() > 0 {
                let mut j: usize = 0;
                let mut fits = false;
                while j < sets.len() && !fits
                    invariant
                        0 <= j <= sets@.len(),
                        sets@.len() == before_sets.len(),
                        contents_of(sets@) == before_sets,
                        fx_contents(current) == cur,
                        forall|x: usize| cur.contains(x) ==> x < self.ind_s@.len(),
                        g < self.near_inds@.len(),
                        g < self.ind_s@.len(),
                        list == self.near_inds@[g as int]@,
                        skel == self.ind_s.deep_view(),
                        forall|c: int| 0 <= c < j ==> conflicts(list, cur, skel, #[trigger] before_sets[c]),
                        fits ==> j < sets@.len() && !conflicts(list, cur, skel, before_sets[j as int]),
                    decreases sets@.len() - j, if fits { 0int } else { 1int },
                {
                    if has_conflict(&self.near_inds[g], &current, &self.ind_s, &sets[j], Ghost(cur)) {
                        j = j + 1;
                    } else {
                        fits = true;
                    }
                }
                proof {
                    lemma_first_fit_skip(before_sets, list, cur, skel, j as int);
                }
                if fits {
                    reserve(&mut sets[j], &self.near_inds[g], &current, &self.ind_s, g, Ghost(cur));
                    groups[j].push(ind);
                    proof {
                        assert(first_fit(before_sets, list, cur, skel, 0) == Some(j as int));
                        assert(contents_of(sets@) =~= before_sets.update(
                            j as int,
                            before_sets[j as int].union(reserved(list, cur, skel, g)),
                        ));
                        assert(groups.deep_view() =~~= before_groups.update(
                            j as int,
                            before_groups[j as int].push(ind),
                        ));
                    }
                } else {
                    let mut fresh = fx_set_new();
                    reserve(&mut fresh, &self.near_inds[g], &current, &self.ind_s, g, Ghost(cur));
                    sets.push(fresh);
                    let mut group: Vec<usize> = Vec::new();
                    group.push(ind);
                    groups.push(group);
                    proof {
                        assert(first_fit(before_sets, list, cur, skel, 0) is None);
                        assert(fx_contents(fresh) =~= reserved(list, cur, skel, g));
                        assert(contents_of(sets@) =~= before_sets.push(reserved(list, cur, skel, g)));
                        assert(groups.deep_view() =~~= before_groups.push(seq![ind]));
                    }
                }
            }
            t = t + 1;
        }
        groups
    }
}

/// Boxes `ga` and `gb` can be processed together: no occupied neighbour of
/// `gb` in the batch is `ga` or one of the occupied neighbours of `ga`.
pub open spec fn independent(
    near: Seq<Seq<usize>>,
    current: Set<usize>,
    ind_s: Seq<Seq<usize>>,
    ga: usize,
    gb: usize,
) -> bool {
    !conflicts(near[gb as int], current, ind_s, reserved(near[ga as int], current, ind_s, ga))
}

/// What the groups reserve covers what each member reserves, and a member
/// is independent of every member that joined the group before it.
proof fn lemma_greedy_groups_invariant(
    order: Seq<usize>,
    boxes: Seq<usize>,
    near: Seq<Seq<usize>>,
    ind_s: Seq<Seq<usize>>,
    k: int,
)
    ensures
        ({
            let (sets, groups) = greedy_groups(order, boxes, near, ind_s, k);
            let cur = boxes.to_set();
            &&& sets.len() == groups.len()
            &&& forall|j: int, a: int|
                #![trigger sets[j], groups[j][a]]
                0 <= j < groups.len() && 0 <= a < groups[j].len() ==> reserved(
                    near[boxes[groups[j][a] as int] as int],
                    cur,
                    ind_s,
                    boxes[groups[j][a] as int],
                ).subset_of(sets[j])
            &&& forall|j: int, a: int, b: int|
                0 <= j < groups.len() && 0 <= a < b < groups[j].len() ==> independent(
                    near,
                    cur,
                    ind_s,
                    boxes[#[trigger] groups[j][a] as int],
                    boxes[#[trigger] groups[j][b] as int],
                )
        }),
    decreases k,
{
    if k > 0 {
        lemma_greedy_groups_invariant(order, boxes, near, ind_s, k - 1);
        let (sets, groups) = greedy_groups(order, boxes, near, ind_s, k - 1);
        let cur = boxes.to_set();
        let ind = order[k - 1];
        let g = boxes[ind as int];
        let list = near[g as int];
        if ind_s[g as int].len() > 0 {
            match first_fit(sets, list, cur, ind_s, 0) {
                Some(j) => {
                    lemma_first_fit_found(sets, list, cur, ind_s, 0);
                    let (sets2, groups2) = greedy_groups(order, boxes, near, ind_s, k);
                    assert(sets2 == sets.update(j, sets[j].union(reserved(list, cur, ind_s, g))));
                    assert(groups2 == groups.update(j, groups[j].push(ind)));
                    assert forall|jj: int, a: int|
                        #![trigger sets2[jj], groups2[jj][a]]
                        0 <= jj < groups2.len() && 0 <= a < groups2[jj].len() implies reserved(
                        near[boxes[groups2[jj][a] as int] as int],
                        cur,
                        ind_s,
                        boxes[groups2[jj][a] as int],
                    ).subset_of(sets2[jj]) by {
                        if jj == j && a < groups[j].len() {
                            assert(groups2[jj][a] == groups[j][a]);
                            assert(reserved(
                                near[boxes[groups[j][a] as int] as int],
                                cur,
                                ind_s,
                                boxes[groups[j][a] as int],
                            ).subset_of(sets[j]));
                        } else if jj != j {
                            assert(groups2[jj] == groups[jj]);
                            assert(reserved(
                                near[boxes[groups[jj][a] as int] as int],
                                cur,
                                ind_s,
                                boxes[groups[jj][a] as int],
                            ).subset_of(sets[jj]));
                        }
                    }
                    assert forall|jj: int, a: int, b: int|
                        0 <= jj < groups2.len() && 0 <= a < b < groups2[jj].len() implies independent(
                        near,
                        cur,
                        ind_s,
                        boxes[#[trigger] groups2[jj][a] as int],
                        boxes[#[trigger] groups2[jj][b] as int],
                    ) by {
                        if jj == j && b == groups[j].len() {
                            let ga = boxes[groups[j][a] as int];
                            let taken = reserved(near[ga as int], cur, ind_s, ga);
                            assert(taken.subset_of(sets[j]));
                            assert(groups2[jj][b] == ind);
                            assert(groups2[jj][a] == groups[j][a]);
                            if conflicts(list, cur, ind_s, taken) {
                                let w = choose|w: int|
                                    0 <= w < list.len() && in_play(cur, ind_s, list[w]) && taken.contains(
                                        #[trigger] list[w],
                                    );
                                assert(sets[j].contains(list[w]));
                            }
                        } else if jj == j {
                            assert(groups2[jj][a] == groups[j][a]);
                            assert(groups2[jj][b] == groups[j][b]);
                        } else {
                            assert(groups2[jj] == groups[jj]);
                        }
                    }
                },
                None => {
                    let (sets2, groups2) = greedy_groups(order, boxes, near, ind_s, k);
                    assert(sets2 == sets.push(reserved(list, cur, ind_s, g)));
                    assert(groups2 == groups.push(seq![ind]));
                    assert forall|jj: int, a: int|
                        #![trigger sets2[jj], groups2[jj][a]]
                        0 <= jj < groups2.len() && 0 <= a < groups2[jj].len() implies reserved(
                        near[boxes[groups2[jj][a] as int] as int],
                        cur,
                        ind_s,
                        boxes[groups2[jj][a] as int],
                    ).subset_of(sets2[jj]) by {
                        if jj < groups.len() {
                            assert(groups2[jj] == groups[jj]);
                            assert(sets2[jj] == sets[jj]);
                        } else {
                            assert(groups2[jj][a] == ind);
                        }
                    }
                    assert forall|jj: int, a: int, b: int|
                        0 <= jj < groups2.len() && 0 <= a < b < groups2[jj].len() implies independent(
                        near,
                        cur,
                        ind_s,
                        boxes[#[trigger] groups2[jj][a] as int],
                        boxes[#[trigger] groups2[jj][b] as int],
                    ) by {
                        assert(jj < groups.len());
                        assert(groups2[jj] == groups[jj]);
                    }
                },
            }
        }
    }
}

/// The group that `first_fit` finds has no conflict.
proof fn lemma_first_fit_found(
    sets: Seq<Set<usize>>,
    list: Seq<usize>,
    current: Set<usize>,
    ind_s: Seq<Seq<usize>>,
    j: int,
)
    requires
        0 <= j,
    ensures
        first_fit(sets, list, current, ind_s, j) matches Some(f) ==> j <= f < sets.len() && !conflicts(
            list,
            current,
            ind_s,
            sets[f],
        ),
    decreases sets.len() - j,
{
    if j < sets.len() && conflicts(list, current, ind_s, sets[j]) {
        lemma_first_fit_found(sets, list, current, ind_s, j + 1);
    }
}

/// Boxes that share a group can be processed together: every box of a group
/// is independent of each box that joined the group before it.
pub proof fn lemma_groups_independent(
    order: Seq<usize>,
    boxes: Seq<usize>,
    near: Seq<Seq<usize>>,
    ind_s: Seq<Seq<usize>>,
)
    ensures
        ({
            let groups = greedy_groups(order, boxes, near, ind_s, boxes.len() as int).1;
            forall|j: int, a: int, b: int|
                0 <= j < groups.len() && 0 <= a < b < groups[j].len() ==> independent(
                    near,
                    boxes.to_set(),
                    ind_s,
                    boxes[#[trigger] groups[j][a] as int],
                    boxes[#[trigger] groups[j][b] as int],
                )
        }),
{
    lemma_greedy_groups_invariant(order, boxes, near, ind_s, boxes.len() as int);
}

/// Adding `x` to group `j` adds one `x` to the members of all groups.
proof fn lemma_members_update_push(groups: Seq<Seq<usize>>, j: int, x: usize)
    requires
        0 <= j < groups.len(),
    ensures
        groups.update(j, groups[j].push(x)).flatten().to_multiset() =~= groups.flatten().to_multiset().insert(
            x,
        ),
{
    broadcast use vstd::multiset::group_multiset_axioms;
    broadcast use vstd::seq_lib::lemma_multiset_commutative;

    let a = groups.take(j);
    let b = groups.skip(j + 1);
    let g = groups[j];
    assert(groups =~= a + seq![g] + b);
    assert(groups.update(j, g.push(x)) =~= a + seq![g.push(x)] + b);
    vstd::seq_lib::lemma_flatten_concat(a + seq![g], b);
    vstd::seq_lib::lemma_flatten_concat(a, seq![g]);
    vstd::seq_lib::lemma_flatten_concat(a + seq![g.push(x)], b);
    vstd::seq_lib::lemma_flatten_concat(a, seq![g.push(x)]);
    seq![g].lemma_flatten_one_element();
    seq![g.push(x)].lemma_flatten_one_element();
    assert(seq![g].flatten() == g);
    assert(seq![g.push(x)].flatten() == g.push(x));
    g.to_multiset_ensures();
}

/// Opening a group for `x` adds one `x` to the members of all groups.
proof fn lemma_members_push_group(groups: Seq<Seq<usize>>, x: usize)
    ensures
        groups.push(seq![x]).flatten().to_multiset() =~= groups.flatten().to_multiset().insert(x),
{
    broadcast use vstd::multiset::group_multiset_axioms;

    groups.lemma_flatten_push(seq![x]);
    groups.flatten().to_multiset_ensures();
    assert(groups.flatten() + seq![x] =~= groups.flatten().push(x));
}

/// After the first `k` boxes of an order without repeats, every box of
/// them that holds skeleton indices is a member of exactly one group once,
/// and nothing else is a member.
proof fn lemma_greedy_members(
    order: Seq<usize>,
    boxes: Seq<usize>,
    near: Seq<Seq<usize>>,
    ind_s: Seq<Seq<usize>>,
    k: int,
)
    requires
        0 <= k <= order.len(),
        order.no_duplicates(),
    ensures
        forall|x: usize|
            #[trigger] greedy_groups(order, boxes, near, ind_s, k).1.flatten().to_multiset().count(x)
                == if order.take(k).contains(x) && ind_s[boxes[x as int] as int].len() > 0 {
                1nat
            } else {
                0nat
            },
    decreases k,
{
    broadcast use vstd::multiset::group_multiset_axioms;

    if k == 0 {
        assert(greedy_groups(order, boxes, near, ind_s, 0).1 =~= Seq::<Seq<usize>>::empty());
        assert(Seq::<Seq<usize>>::empty().flatten() =~= Seq::<usize>::empty());
        Seq::<usize>::empty().to_multiset_ensures();
        assert forall|x: usize| !#[trigger] order.take(0).contains(x) by {}
        assert forall|x: usize|
            #[trigger] greedy_groups(order, boxes, near, ind_s, 0).1.flatten().to_multiset().count(x)
                == 0 by {
            assert(!Seq::<usize>::empty().contains(x));
        }
    } else {
        lemma_greedy_members(order, boxes, near, ind_s, k - 1);
        let (sets, groups) = greedy_groups(order, boxes, near, ind_s, k - 1);
        let groups2 = greedy_groups(order, boxes, near, ind_s, k).1;
        let ind = order[k - 1];
        let g = boxes[ind as int];
        let cur = boxes.to_set();
        let list = near[g as int];
        assert(order.take(k) =~= order.take(k - 1).push(ind));
        assert(!order.take(k - 1).contains(ind)) by {
            if order.take(k - 1).contains(ind) {
                let w = choose|w: int| 0 <= w < k - 1 && #[trigger] order.take(k - 1)[w] == ind;
                assert(order[w] == order[k - 1]);
            }
        }
        assert forall|x: usize| #[trigger] order.take(k).contains(x) <==> (order.take(k - 1).contains(x) || x == ind) by {
            if order.take(k).contains(x) {
                let w = choose|w: int| 0 <= w < k && #[trigger] order.take(k)[w] == x;
                if w < k - 1 {
                    assert(order.take(k - 1)[w] == x);
                }
            }
            if order.take(k - 1).contains(x) {
                let w = choose|w: int| 0 <= w < k - 1 && #[trigger] order.take(k - 1)[w] == x;
                assert(order.take(k)[w] == x);
            }
            if x == ind {
                assert(order.take(k)[k - 1] == x);
            }
        }
        if ind_s[g as int].len() > 0 {
            match first_fit(sets, list, cur, ind_s, 0) {
                Some(j) => {
                    lemma_first_fit_found(sets, list, cur, ind_s, 0);
                    lemma_greedy_groups_invariant(order, boxes, near, ind_s, k - 1);
                    assert(groups2 == groups.update(j, groups[j].push(ind)));
                    lemma_members_update_push(groups, j, ind);
                },
                None => {
                    assert(groups2 == groups.push(seq![ind]));
                    lemma_members_push_group(groups, ind);
                },
            }
            assert(groups2.flatten().to_multiset() =~= groups.flatten().to_multiset().insert(ind));
            assert forall|x: usize|
                #[trigger] groups2.flatten().to_multiset().count(x) == if order.take(k).contains(x)
                    && ind_s[boxes[x as int] as int].len() > 0 {
                    1nat
                } else {
                    0nat
                } by {
                assert(groups.flatten().to_multiset().count(x) == if order.take(k - 1).contains(x)
                    && ind_s[boxes[x as int] as int].len() > 0 {
                    1nat
                } else {
                    0nat
                });
            }
        } else {
            assert(groups2 == groups);
            assert forall|x: usize|
                #[trigger] groups2.flatten().to_multiset().count(x) == if order.take(k).contains(x)
                    && ind_s[boxes[x as int] as int].len() > 0 {
                    1nat
                } else {
                    0nat
                } by {
                assert(groups.flatten().to_multiset().count(x) == if order.take(k - 1).contains(x)
                    && ind_s[boxes[x as int] as int].len() > 0 {
                    1nat
                } else {
                    0nat
                });
            }
        }
    }
}

/// Every box of the batch that holds skeleton indices lands in exactly one
/// group, once, and no other box does: the groups list the positions of the
/// occupied boxes of `boxes`, each once.
pub proof fn lemma_groups_cover_occupied(
    order: Seq<usize>,
    boxes: Seq<usize>,
    near: Seq<Seq<usize>>,
    ind_s: Seq<Seq<usize>>,
)
    requires
        boxes.len() <= usize::MAX,
        is_degree_order(order, boxes, near, ind_s),
    ensures
        forall|x: usize|
            #[trigger] greedy_groups(order, boxes, near, ind_s, boxes.len() as int).1.flatten().to_multiset().count(
                x,
            ) == if x < boxes.len() && ind_s[boxes[x as int] as int].len() > 0 {
                1nat
            } else {
                0nat
            },
{
    let n = boxes.len();
    lemma_greedy_members(order, boxes, near, ind_s, n as int);
    assert(order.take(n as int) =~= order);
    assert(crate::matrix::distinct_indices(order)) by {
        assert forall|a: int, b: int| 0 <= a < order.len() && 0 <= b < order.len() && a != b implies #[trigger] order[a] != #[trigger] order[b] by {
        }
    }
    crate::factors::lemma_distinct_covers(order, n);
    assert forall|x: usize| order.contains(x) <==> x < n by {
        if order.contains(x) {
            let w = choose|w: int| 0 <= w < order.len() && order[w] == x;
        }
    }
}

} // verus!
