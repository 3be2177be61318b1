//! Depth-first first-match subset-sum search.
//!
//! `find_first_combination` explores index-increasing combinations of the
//! input in depth-first, shallowest-first order: at each node it sums the
//! current path with the caller's addition, stops with the path as soon as
//! the caller's match test accepts the sum, abandons the branch when the
//! caller's pruning test rejects the sum, and otherwise extends the path
//! with each later element in turn.  The first accepted combination ends
//! the whole search.  The spec functions `search_from` / `search_children`
//! state that order mathematically, and the executable search is proved to
//! return exactly their value.

use vstd::prelude::*;

use crate::arith::apply2;
use crate::arith::functional2;
use crate::arith::lemma_apply2;

verus! {

/// The sum of `s` under the caller's addition, folded left to right from
/// the caller's initial value `zero` (the sum of no elements).
pub open spec fn sum_spec<FP: Fn(u64, u64) -> u64>(plus: FP, zero: u64, s: Seq<u64>) -> u64
    decreases s.len(),
{
    if s.len() == 0 {
        zero
    } else {
        apply2(plus, sum_spec(plus, zero, s.drop_last()), s.last())
    }
}

/// The result of the depth-first search that stands at the node `path`,
/// with `start` the least index still eligible for inclusion: the current
/// path itself if its sum is accepted, nothing if the branch is pruned,
/// and otherwise the first result among the children in index order.
pub open spec fn search_from<
    FP: Fn(u64, u64) -> u64,
    FM: Fn(u64, u64) -> bool,
    FE: Fn(u64, u64) -> bool,
>(
    nums: Seq<u64>,
    target: u64,
    zero: u64,
    path: Seq<u64>,
    start: int,
    plus: FP,
    is_match: FM,
    exceeds: FE,
) -> Option<Seq<u64>>
    decreases nums.len() - start, 1int,
{
    if start < 0 || start > nums.len() {
        None
    } else if apply2(is_match, sum_spec(plus, zero, path), target) {
        Some(path)
    } else if apply2(exceeds, sum_spec(plus, zero, path), target) {
        None
    } else {
        search_children(nums, target, zero, path, start, plus, is_match, exceeds)
    }
}

/// The first result among the subtrees rooted at `path + [nums[i]]`,
/// `path + [nums[i + 1]]`, ..., visited left to right.
pub open spec fn search_children<
    FP: Fn(u64, u64) -> u64,
    FM: Fn(u64, u64) -> bool,
    FE: Fn(u64, u64) -> bool,
>(
    nums: Seq<u64>,
    target: u64,
    zero: u64,
    path: Seq<u64>,
    i: int,
    plus: FP,
    is_match: FM,
    exceeds: FE,
) -> Option<Seq<u64>>
    decreases nums.len() - i, 0int,
{
    if i < 0 || i >= nums.len() {
        None
    } else {
        match search_from(
            nums,
            target,
            zero,
            path.push(nums[i]),
            i + 1,
            plus,
            is_match,
            exceeds,
        ) {
            Some(v) => Some(v),
            None => search_children(nums, target, zero, path, i + 1, plus, is_match, exceeds),
        }
    }
}

/// The combination as a mathematical value, for relating executable
/// results to `search_from`.
pub open spec fn combo_view(r: Option<Vec<u64>>) -> Option<Seq<u64>> {
    match r {
        Some(v) => Some(v@),
        None => None,
    }
}

/// An exact copy of the path, handed out when the search accepts it.
fn clone_path(path: &Vec<u64>) -> (r: Vec<u64>)
    ensures
        r@ == path@,
{
    let mut r: Vec<u64> = Vec::new();
    let mut k: usize = 0;
    while k < path.len()
        invariant
            k <= path@.len(),
            r@ == path@.take(k as int),
        decreases path@.len() - k,
    {
        r.push(path[k]);
        proof {
            assert(path@.take(k as int + 1) =~= path@.take(k as int).push(path@[k as int]));
        }
        k += 1;
    }
    proof {
        assert(path@.take(path@.len() as int) =~= path@);
    }
    r
}

/// The first combination, in depth-first index order, whose sum the
/// caller's match test accepts as equal to the target; `None` when every
/// unpruned combination is rejected.  The result is exactly the value of
/// the `search_from` specification started at the empty path.
pub fn find_first_combination<FP, FM, FE>(
    nums: &Vec<u64>,
    target: u64,
    zero: u64,
    plus: FP,
    is_match: FM,
    exceeds: FE,
) -> (result: Option<Vec<u64>>) where
    FP: Fn(u64, u64) -> u64 + Copy,
    FM: Fn(u64, u64) -> bool + Copy,
    FE: Fn(u64, u64) -> bool + Copy,

    requires
        functional2(plus),
        functional2(is_match),
        functional2(exceeds),
    ensures
        combo_view(result) == search_from(
            nums@,
            target,
            zero,
            Seq::<u64>::empty(),
            0,
            plus,
            is_match,
            exceeds,
        ),
{
    let mut path: Vec<u64> = Vec::new();
    backtrack_first(nums, target, zero, 0, &mut path, plus, is_match, exceeds)
}

/// One node of the depth-first search: sums the current path, tests it,
/// and explores the children in index order, stopping at the first
/// accepted combination.  Restores the path before returning.
pub fn backtrack_first<FP, FM, FE>(
    nums: &Vec<u64>,
    target: u64,
    zero: u64,
    start: usize,
    path: &mut Vec<u64>,
    plus: FP,
    is_match: FM,
    exceeds: FE,
) -> (found: Option<Vec<u64>>) where
    FP: Fn(u64, u64) -> u64 + Copy,
    FM: Fn(u64, u64) -> bool + Copy,
    FE: Fn(u64, u64) -> bool + Copy,

    requires
        functional2(plus),
        functional2(is_match),
        functional2(exceeds),
        start <= nums@.len(),
    ensures
        final(path)@ == old(path)@,
        combo_view(found) == search_from(
            nums@,
            target,
            zero,
            old(path)@,
            start as int,
            plus,
            is_match,
            exceeds,
        ),
    decreases nums@.len() - start,
{
    let mut acc: u64 = zero;
    let mut k: usize = 0;
    while k < path.len()
        invariant
            functional2(plus),
            k <= path@.len(),
            path@ == old(path)@,
            acc == sum_spec(plus, zero, path@.take(k as int)),
        decreases path@.len() - k,
    {
        let x = path[k];
        proof {
            assert(call_requires(plus, (acc, x)));
        }
        let acc2 = plus(acc, x);
        proof {
            lemma_apply2(plus, acc, x, acc2);
            assert(path@.take(k as int + 1).drop_last() =~= path@.take(k as int));
            assert(path@.take(k as int + 1).last() == x);
        }
        acc = acc2;
        k += 1;
    }
    proof {
        assert(path@.take(path@.len() as int) =~= path@);
    }
    proof {
        assert(call_requires(is_match, (acc, target)));
    }
    let hit = is_match(acc, target);
    proof {
        lemma_apply2(is_match, acc, target, hit);
    }
    if hit {
        return Some(clone_path(path));
    }
    proof {
        assert(call_requires(exceeds, (acc, target)));
    }
    let over = exceeds(acc, target);
    proof {
        lemma_apply2(exceeds, acc, target, over);
    }
    if over {
        return None;
    }
    let mut i: usize = start;
    let mut found: Option<Vec<u64>> = None;
    while i < nums.len() && found.is_none()
        invariant
            functional2(plus),
            functional2(is_match),
            functional2(exceeds),
            start <= i <= nums@.len(),
            path@ == old(path)@,
            match found {
                Some(v) => search_children(
                    nums@,
                    target,
                    zero,
                    old(path)@,
                    start as int,
                    plus,
                    is_match,
                    exceeds,
                ) == Some(v@),
                None => search_children(
                    nums@,
                    target,
                    zero,
                    old(path)@,
                    start as int,
                    plus,
                    is_match,
                    exceeds,
                ) == search_children(
                    nums@,
                    target,
                    zero,
                    old(path)@,
                    i as int,
                    plus,
                    is_match,
                    exceeds,
                ),
            },
        decreases nums@.len() - i,
    {
        path.push(nums[i]);
        let sub = backtrack_first(nums, target, zero, i + 1, path, plus, is_match, exceeds);
        let _ = path.pop();
        proof {
            assert(old(path)@.push(nums@[i as int]).drop_last() =~= old(path)@);
        }
        if sub.is_some() {
            found = sub;
        }
        i += 1;
    }
    proof {
        if found is None && i >= nums@.len() {
            assert(search_children(
                nums@,
                target,
                zero,
                old(path)@,
                i as int,
                plus,
                is_match,
                exceeds,
            ) is None);
        }
    }
    found
}

/// Exactness: any combination the search returns sums, under the caller's
/// addition folded from the caller's initial value, to a value the
/// caller's match test accepts as equal to the target.
pub proof fn lemma_exactness<FP, FM, FE>(
    nums: Seq<u64>,
    target: u64,
    zero: u64,
    path: Seq<u64>,
    start: int,
    plus: FP,
    is_match: FM,
    exceeds: FE,
    v: Seq<u64>,
) where
    FP: Fn(u64, u64) -> u64,
    FM: Fn(u64, u64) -> bool,
    FE: Fn(u64, u64) -> bool,

    requires
        search_from(nums, target, zero, path, start, plus, is_match, exceeds) == Some(v),
    ensures
        apply2(is_match, sum_spec(plus, zero, v), target),
    decreases nums.len() - start, 1int,
{
    if !apply2(is_match, sum_spec(plus, zero, path), target) && !apply2(
        exceeds,
        sum_spec(plus, zero, path),
        target,
    ) {
        lemma_exactness_children(nums, target, zero, path, start, plus, is_match, exceeds, v);
    }
}

proof fn lemma_exactness_children<FP, FM, FE>(
    nums: Seq<u64>,
    target: u64,
    zero: u64,
    path: Seq<u64>,
    i: int,
    plus: FP,
    is_match: FM,
    exceeds: FE,
    v: Seq<u64>,
) where
    FP: Fn(u64, u64) -> u64,
    FM: Fn(u64, u64) -> bool,
    FE: Fn(u64, u64) -> bool,

    requires
        search_children(nums, target, zero, path, i, plus, is_match, exceeds) == Some(v),
    ensures
        apply2(is_match, sum_spec(plus, zero, v), target),
    decreases nums.len() - i, 0int,
{
    let child = search_from(nums, target, zero, path.push(nums[i]), i + 1, plus, is_match, exceeds);
    if child is Some {
        lemma_exactness(nums, target, zero, path.push(nums[i]), i + 1, plus, is_match, exceeds, v);
    } else {
        lemma_exactness_children(nums, target, zero, path, i + 1, plus, is_match, exceeds, v);
    }
}

/// `idx` lists, in strictly increasing order, positions of `nums` no
/// earlier than `lo` whose elements read off in order are exactly `v`.
pub open spec fn selects(nums: Seq<u64>, idx: Seq<int>, v: Seq<u64>, lo: int) -> bool {
    &&& idx.len() == v.len()
    &&& forall|j: int| 0 <= j < idx.len() ==> lo <= #[trigger] idx[j] < nums.len()
    &&& forall|j: int| 0 <= j < idx.len() ==> v[j] == nums[#[trigger] idx[j]]
    &&& forall|j: int| 0 < j < idx.len() ==> idx[j - 1] < #[trigger] idx[j]
}

/// Subsequence validity: any combination the search returns extends the
/// path at its starting node by elements taken at strictly increasing
/// indices of the input, all at or after the node's cursor.  Started at
/// the empty path, this says the whole combination is such a subsequence.
pub proof fn lemma_subsequence<FP, FM, FE>(
    nums: Seq<u64>,
    target: u64,
    zero: u64,
    path: Seq<u64>,
    start: int,
    plus: FP,
    is_match: FM,
    exceeds: FE,
    v: Seq<u64>,
) where
    FP: Fn(u64, u64) -> u64,
    FM: Fn(u64, u64) -> bool,
    FE: Fn(u64, u64) -> bool,

    requires
        search_from(nums, target, zero, path, start, plus, is_match, exceeds) == Some(v),
    ensures
        v.len() >= path.len(),
        v.take(path.len() as int) == path,
        exists|idx: Seq<int>| selects(nums, idx, v.skip(path.len() as int), start),
    decreases nums.len() - start, 1int,
{
    if apply2(is_match, sum_spec(plus, zero, path), target) {
        assert(v == path);
        assert(v.take(path.len() as int) =~= path);
        let idx = Seq::<int>::empty();
        assert(v.skip(path.len() as int) =~= Seq::<u64>::empty());
        assert(selects(nums, idx, v.skip(path.len() as int), start));
    } else {
        lemma_subsequence_children(nums, target, zero, path, start, plus, is_match, exceeds, v);
    }
}

proof fn lemma_subsequence_children<FP, FM, FE>(
    nums: Seq<u64>,
    target: u64,
    zero: u64,
    path: Seq<u64>,
    i: int,
    plus: FP,
    is_match: FM,
    exceeds: FE,
    v: Seq<u64>,
) where
    FP: Fn(u64, u64) -> u64,
    FM: Fn(u64, u64) -> bool,
    FE: Fn(u64, u64) -> bool,

    requires
        search_children(nums, target, zero, path, i, plus, is_match, exceeds) == Some(v),
    ensures
        v.len() >= path.len(),
        v.take(path.len() as int) == path,
        exists|idx: Seq<int>| selects(nums, idx, v.skip(path.len() as int), i),
    decreases nums.len() - i, 0int,
{
    let longer = path.push(nums[i]);
    let child = search_from(nums, target, zero, longer, i + 1, plus, is_match, exceeds);
    if child is Some {
        lemma_subsequence(nums, target, zero, longer, i + 1, plus, is_match, exceeds, v);
        let idx0 = choose|idx: Seq<int>| #[trigger] selects(nums, idx, v.skip(longer.len() as int), i + 1);
        assert(v.take(longer.len() as int).take(path.len() as int) =~= v.take(path.len() as int));
        assert(longer.take(path.len() as int) =~= path);
        let idx = seq![i].add(idx0);
        assert(v.skip(path.len() as int)[0] == v[path.len() as int]);
        assert(v[path.len() as int] == v.take(longer.len() as int)[path.len() as int]);
        assert(v.skip(path.len() as int).skip(1) =~= v.skip(longer.len() as int));
        assert forall|j: int| 0 <= j < idx.len() implies i <= #[trigger] idx[j] < nums.len() by {
            if j > 0 {
                assert(idx[j] == idx0[j - 1]);
            }
        }
        assert forall|j: int| 0 <= j < idx.len() implies v.skip(path.len() as int)[j] == nums[#[trigger] idx[j]] by {
            if j > 0 {
                assert(idx[j] == idx0[j - 1]);
                assert(v.skip(path.len() as int)[j] == v.skip(longer.len() as int)[j - 1]);
            }
        }
        assert forall|j: int| 0 < j < idx.len() implies idx[j - 1] < #[trigger] idx[j] by {
            if j == 1 {
                assert(idx[0] == i && idx[1] == idx0[0]);
            } else {
                assert(idx[j - 1] == idx0[j - 2] && idx[j] == idx0[j - 1]);
            }
        }
        assert(selects(nums, idx, v.skip(path.len() as int), i));
    } else {
        lemma_subsequence_children(nums, target, zero, path, i + 1, plus, is_match, exceeds, v);
        let idx0 = choose|idx: Seq<int>| #[trigger] selects(nums, idx, v.skip(path.len() as int), i + 1);
        assert(selects(nums, idx0, v.skip(path.len() as int), i));
    }
}

/// The elements of `nums` at the positions `idx`, in order.
pub open spec fn values_at(nums: Seq<u64>, idx: Seq<int>) -> Seq<u64> {
    Seq::new(idx.len(), |k: int| nums[idx[k]])
}

/// `idx` lists strictly increasing positions of `nums`, all at or after
/// `lo`.
pub open spec fn rising(nums: Seq<u64>, idx: Seq<int>, lo: int) -> bool {
    &&& forall|k: int| 0 <= k < idx.len() ==> lo <= #[trigger] idx[k] < nums.len()
    &&& forall|k: int| 0 < k < idx.len() ==> idx[k - 1] < #[trigger] idx[k]
}

/// Every proper prefix of the extension `idx` stands at a node the search
/// would walk through: its sum is neither accepted by the match test nor
/// rejected by the pruning test.
pub open spec fn ancestry_open<FP, FM, FE>(
    nums: Seq<u64>,
    target: u64,
    zero: u64,
    path: Seq<u64>,
    idx: Seq<int>,
    plus: FP,
    is_match: FM,
    exceeds: FE,
) -> bool where
    FP: Fn(u64, u64) -> u64,
    FM: Fn(u64, u64) -> bool,
    FE: Fn(u64, u64) -> bool,
{
    forall|k: int|
        0 <= k < idx.len() ==> {
            let s = sum_spec(plus, zero, path + values_at(nums, #[trigger] idx.take(k)));
            !apply2(is_match, s, target) && !apply2(exceeds, s, target)
        }
}

proof fn lemma_children_none<FP, FM, FE>(
    nums: Seq<u64>,
    target: u64,
    zero: u64,
    path: Seq<u64>,
    i: int,
    j: int,
    plus: FP,
    is_match: FM,
    exceeds: FE,
) where
    FP: Fn(u64, u64) -> u64,
    FM: Fn(u64, u64) -> bool,
    FE: Fn(u64, u64) -> bool,

    requires
        search_children(nums, target, zero, path, i, plus, is_match, exceeds) is None,
        0 <= i <= j < nums.len(),
    ensures
        search_from(nums, target, zero, path.push(nums[j]), j + 1, plus, is_match, exceeds)
            is None,
    decreases j - i,
{
    if j > i {
        lemma_children_none(nums, target, zero, path, i + 1, j, plus, is_match, exceeds);
    }
}

/// Completeness of a negative result: when the search at a node reports
/// no combination, then no extension of that node's path by eligible
/// indices sums to the target — as long as every ancestor of the
/// extension survives both tests, which is exactly the part of the tree
/// the pruning rule lets the search inspect.
pub proof fn lemma_none_overlooks_nothing<FP, FM, FE>(
    nums: Seq<u64>,
    target: u64,
    zero: u64,
    path: Seq<u64>,
    start: int,
    idx: Seq<int>,
    plus: FP,
    is_match: FM,
    exceeds: FE,
) where
    FP: Fn(u64, u64) -> u64,
    FM: Fn(u64, u64) -> bool,
    FE: Fn(u64, u64) -> bool,

    requires
        0 <= start <= nums.len(),
        search_from(nums, target, zero, path, start, plus, is_match, exceeds) is None,
        rising(nums, idx, start),
        ancestry_open(nums, target, zero, path, idx, plus, is_match, exceeds),
    ensures
        !apply2(is_match, sum_spec(plus, zero, path + values_at(nums, idx)), target),
    decreases nums.len() - start,
{
    let s = sum_spec(plus, zero, path);
    assert(!apply2(is_match, s, target));
    if idx.len() == 0 {
        assert(path + values_at(nums, idx) =~= path);
    } else {
        assert(idx.take(0) =~= Seq::<int>::empty());
        assert(path + values_at(nums, idx.take(0)) =~= path);
        assert(!apply2(exceeds, s, target));
        let i = idx[0];
        assert(start <= i < nums.len());
        lemma_children_none(nums, target, zero, path, start, i, plus, is_match, exceeds);
        let longer = path.push(nums[i]);
        let rest = idx.skip(1);
        assert forall|k: int| 0 < k < idx.len() implies idx[k - 1] < #[trigger] idx[k] by {}
        assert forall|k: int| 0 <= k < rest.len() implies i + 1 <= #[trigger] rest[k]
            < nums.len() by {
            assert(rest[k] == idx[k + 1]);
            lemma_rising_tail(idx, k + 1);
        }
        assert(rising(nums, rest, i + 1));
        assert forall|k: int|
            0 <= k < rest.len() implies {
            let s2 = sum_spec(plus, zero, longer + values_at(nums, #[trigger] rest.take(k)));
            !apply2(is_match, s2, target) && !apply2(exceeds, s2, target)
        } by {
            assert(longer + values_at(nums, rest.take(k)) =~= path + values_at(
                nums,
                idx.take(k + 1),
            ));
        }
        assert(ancestry_open(nums, target, zero, longer, rest, plus, is_match, exceeds));
        lemma_none_overlooks_nothing(
            nums,
            target,
            zero,
            longer,
            i + 1,
            rest,
            plus,
            is_match,
            exceeds,
        );
        assert(longer + values_at(nums, rest) =~= path + values_at(nums, idx));
    }
}

/// Within a strictly increasing index list, every later entry is larger
/// than the first by at least its distance from it.
proof fn lemma_rising_tail(idx: Seq<int>, k: int)
    requires
        0 <= k < idx.len(),
        forall|m: int| 0 < m < idx.len() ==> idx[m - 1] < #[trigger] idx[m],
    ensures
        idx[0] + k <= idx[k],
    decreases k,
{
    if k > 0 {
        lemma_rising_tail(idx, k - 1);
    }
}

/// Empty-target edge: when the caller's match test accepts the initial
/// sum (the sum of no elements) as equal to the target, the search
/// returns the empty combination at once, whatever the input holds,
/// before any element is considered.
pub proof fn lemma_empty_match<FP, FM, FE>(
    nums: Seq<u64>,
    target: u64,
    zero: u64,
    plus: FP,
    is_match: FM,
    exceeds: FE,
) where
    FP: Fn(u64, u64) -> u64,
    FM: Fn(u64, u64) -> bool,
    FE: Fn(u64, u64) -> bool,

    requires
        apply2(is_match, zero, target),
    ensures
        search_from(nums, target, zero, Seq::<u64>::empty(), 0, plus, is_match, exceeds)
            == Some(Seq::<u64>::empty()),
{
    assert(sum_spec(plus, zero, Seq::<u64>::empty()) == zero);
}

/// Idempotence: the search outcome is a function of the input sequence,
/// the target and the caller's arithmetic alone, so two results that both
/// satisfy the contract of `find_first_combination` for the same inputs
/// are the same combination.
pub proof fn lemma_idempotent<FP, FM, FE>(
    nums: Seq<u64>,
    target: u64,
    zero: u64,
    plus: FP,
    is_match: FM,
    exceeds: FE,
    r1: Option<Seq<u64>>,
    r2: Option<Seq<u64>>,
) where
    FP: Fn(u64, u64) -> u64,
    FM: Fn(u64, u64) -> bool,
    FE: Fn(u64, u64) -> bool,

    requires
        r1 == search_from(nums, target, zero, Seq::<u64>::empty(), 0, plus, is_match, exceeds),
        r2 == search_from(nums, target, zero, Seq::<u64>::empty(), 0, plus, is_match, exceeds),
    ensures
        r1 == r2,
{
}

/// `idx` names a node of the search tree under the node `(path, lo)`
/// that the search walks to and accepts: its positions are eligible and
/// increasing, every ancestor survives both tests, and the node's own sum
/// is accepted; `v` is the node's full path.
pub open spec fn search_witness<FP, FM, FE>(
    nums: Seq<u64>,
    target: u64,
    zero: u64,
    path: Seq<u64>,
    idx: Seq<int>,
    v: Seq<u64>,
    lo: int,
    plus: FP,
    is_match: FM,
    exceeds: FE,
) -> bool where
    FP: Fn(u64, u64) -> u64,
    FM: Fn(u64, u64) -> bool,
    FE: Fn(u64, u64) -> bool,
{
    &&& rising(nums, idx, lo)
    &&& ancestry_open(nums, target, zero, path, idx, plus, is_match, exceeds)
    &&& v == path + values_at(nums, idx)
    &&& apply2(is_match, sum_spec(plus, zero, v), target)
}

/// Depth-first visiting order on index extensions: `a` comes no later
/// than `b` when `a` is a prefix of `b` (shallower on the same branch) or
/// holds the smaller index at the first disagreement.
pub open spec fn dfs_le(a: Seq<int>, b: Seq<int>) -> bool
    decreases a.len(),
{
    if a.len() == 0 {
        true
    } else if b.len() == 0 {
        false
    } else if a[0] < b[0] {
        true
    } else if a[0] == b[0] {
        dfs_le(a.skip(1), b.skip(1))
    } else {
        false
    }
}

/// A witness under the child node `(path + [nums[i]], i + 1)` is, with
/// `i` put in front, a witness under `(path, lo)`, provided the parent
/// node itself survives both tests.
proof fn lemma_witness_cons<FP, FM, FE>(
    nums: Seq<u64>,
    target: u64,
    zero: u64,
    path: Seq<u64>,
    i: int,
    idx0: Seq<int>,
    v: Seq<u64>,
    lo: int,
    plus: FP,
    is_match: FM,
    exceeds: FE,
) where
    FP: Fn(u64, u64) -> u64,
    FM: Fn(u64, u64) -> bool,
    FE: Fn(u64, u64) -> bool,

    requires
        search_witness(
            nums,
            target,
            zero,
            path.push(nums[i]),
            idx0,
            v,
            i + 1,
            plus,
            is_match,
            exceeds,
        ),
        lo <= i < nums.len(),
        !apply2(is_match, sum_spec(plus, zero, path), target),
        !apply2(exceeds, sum_spec(plus, zero, path), target),
    ensures
        search_witness(
            nums,
            target,
            zero,
            path,
            seq![i] + idx0,
            v,
            lo,
            plus,
            is_match,
            exceeds,
        ),
{
    let longer = path.push(nums[i]);
    let idx = seq![i] + idx0;
    assert forall|k: int| 0 <= k < idx.len() implies lo <= #[trigger] idx[k] < nums.len() by {
        if k > 0 {
            assert(idx[k] == idx0[k - 1]);
        }
    }
    assert forall|k: int| 0 < k < idx.len() implies idx[k - 1] < #[trigger] idx[k] by {
        if k == 1 {
            assert(idx[0] == i && idx[1] == idx0[0]);
        } else {
            assert(idx[k - 1] == idx0[k - 2] && idx[k] == idx0[k - 1]);
        }
    }
    assert forall|k: int|
        0 <= k < idx.len() implies {
        let s = sum_spec(plus, zero, path + values_at(nums, #[trigger] idx.take(k)));
        !apply2(is_match, s, target) && !apply2(exceeds, s, target)
    } by {
        if k == 0 {
            assert(path + values_at(nums, idx.take(0)) =~= path);
        } else {
            assert forall|m: int| 0 <= m < k - 1 implies #[trigger] idx0.take(k - 1)[m]
                == idx.take(k)[m + 1] by {}
            assert(longer + values_at(nums, idx0.take(k - 1)) =~= path + values_at(
                nums,
                idx.take(k),
            ));
        }
    }
    assert(longer + values_at(nums, idx0) =~= path + values_at(nums, idx));
}

/// The first child subtree, from `i` on, that yields the search result:
/// every earlier child subtree yields nothing.
proof fn lemma_children_first_some<FP, FM, FE>(
    nums: Seq<u64>,
    target: u64,
    zero: u64,
    path: Seq<u64>,
    i: int,
    v: Seq<u64>,
    plus: FP,
    is_match: FM,
    exceeds: FE,
) -> (fst: int) where
    FP: Fn(u64, u64) -> u64,
    FM: Fn(u64, u64) -> bool,
    FE: Fn(u64, u64) -> bool,

    requires
        search_children(nums, target, zero, path, i, plus, is_match, exceeds) == Some(v),
    ensures
        i <= fst < nums.len(),
        search_from(nums, target, zero, path.push(nums[fst]), fst + 1, plus, is_match, exceeds)
            == Some(v),
        forall|j: int|
            i <= j < fst ==> #[trigger] search_from(
                nums,
                target,
                zero,
                path.push(nums[j]),
                j + 1,
                plus,
                is_match,
                exceeds,
            ) is None,
    decreases nums.len() - i,
{
    if search_from(nums, target, zero, path.push(nums[i]), i + 1, plus, is_match, exceeds)
        is Some {
        i
    } else {
        lemma_children_first_some(nums, target, zero, path, i + 1, v, plus, is_match, exceeds)
    }
}

/// Every returned combination is a walked-to, accepted node of the search
/// tree: the result of a successful search carries a witness.
pub proof fn lemma_some_has_witness<FP, FM, FE>(
    nums: Seq<u64>,
    target: u64,
    zero: u64,
    path: Seq<u64>,
    start: int,
    v: Seq<u64>,
    plus: FP,
    is_match: FM,
    exceeds: FE,
) where
    FP: Fn(u64, u64) -> u64,
    FM: Fn(u64, u64) -> bool,
    FE: Fn(u64, u64) -> bool,

    requires
        0 <= start <= nums.len(),
        search_from(nums, target, zero, path, start, plus, is_match, exceeds) == Some(v),
    ensures
        exists|idx: Seq<int>|
            #[trigger] search_witness(
                nums,
                target,
                zero,
                path,
                idx,
                v,
                start,
                plus,
                is_match,
                exceeds,
            ),
    decreases nums.len() - start, 1int,
{
    if apply2(is_match, sum_spec(plus, zero, path), target) {
        assert(path + values_at(nums, Seq::<int>::empty()) =~= path);
        assert(search_witness(
            nums,
            target,
            zero,
            path,
            Seq::<int>::empty(),
            v,
            start,
            plus,
            is_match,
            exceeds,
        ));
    } else {
        lemma_some_has_witness_children(
            nums,
            target,
            zero,
            path,
            start,
            v,
            plus,
            is_match,
            exceeds,
        );
    }
}

proof fn lemma_some_has_witness_children<FP, FM, FE>(
    nums: Seq<u64>,
    target: u64,
    zero: u64,
    path: Seq<u64>,
    i: int,
    v: Seq<u64>,
    plus: FP,
    is_match: FM,
    exceeds: FE,
) where
    FP: Fn(u64, u64) -> u64,
    FM: Fn(u64, u64) -> bool,
    FE: Fn(u64, u64) -> bool,

    requires
        search_children(nums, target, zero, path, i, plus, is_match, exceeds) == Some(v),
        !apply2(is_match, sum_spec(plus, zero, path), target),
        !apply2(exceeds, sum_spec(plus, zero, path), target),
    ensures
        exists|idx: Seq<int>|
            #[trigger] search_witness(
                nums,
                target,
                zero,
                path,
                idx,
                v,
                i,
                plus,
                is_match,
                exceeds,
            ),
    decreases nums.len() - i, 0int,
{
    let longer = path.push(nums[i]);
    if search_from(nums, target, zero, longer, i + 1, plus, is_match, exceeds) is Some {
        lemma_some_has_witness(nums, target, zero, longer, i + 1, v, plus, is_match, exceeds);
        let idx0 = choose|idx0: Seq<int>|
            #[trigger] search_witness(
                nums,
                target,
                zero,
                longer,
                idx0,
                v,
                i + 1,
                plus,
                is_match,
                exceeds,
            );
        lemma_witness_cons(nums, target, zero, path, i, idx0, v, i, plus, is_match, exceeds);
    } else {
        lemma_some_has_witness_children(
            nums,
            target,
            zero,
            path,
            i + 1,
            v,
            plus,
            is_match,
            exceeds,
        );
        let idx = choose|idx: Seq<int>|
            #[trigger] search_witness(
                nums,
                target,
                zero,
                path,
                idx,
                v,
                i + 1,
                plus,
                is_match,
                exceeds,
            );
        assert(search_witness(nums, target, zero, path, idx, v, i, plus, is_match, exceeds));
    }
}

/// First-match minimality: the combination a successful search returns
/// is the one at the earliest accepted node in depth-first visiting
/// order.  For any accepted node `idx_w` of the search tree under
/// `(path, start)`, the result carries a witness node that comes no later
/// than `idx_w` — shallower on its branch, or further to the left.
pub proof fn lemma_first_match<FP, FM, FE>(
    nums: Seq<u64>,
    target: u64,
    zero: u64,
    path: Seq<u64>,
    start: int,
    idx_w: Seq<int>,
    v: Seq<u64>,
    plus: FP,
    is_match: FM,
    exceeds: FE,
) where
    FP: Fn(u64, u64) -> u64,
    FM: Fn(u64, u64) -> bool,
    FE: Fn(u64, u64) -> bool,

    requires
        0 <= start <= nums.len(),
        search_from(nums, target, zero, path, start, plus, is_match, exceeds) == Some(v),
        search_witness(
            nums,
            target,
            zero,
            path,
            idx_w,
            path + values_at(nums, idx_w),
            start,
            plus,
            is_match,
            exceeds,
        ),
    ensures
        exists|idx: Seq<int>|
            #[trigger] search_witness(
                nums,
                target,
                zero,
                path,
                idx,
                v,
                start,
                plus,
                is_match,
                exceeds,
            ) && dfs_le(idx, idx_w),
    decreases nums.len() - start,
{
    let s = sum_spec(plus, zero, path);
    if apply2(is_match, s, target) {
        assert(path + values_at(nums, Seq::<int>::empty()) =~= path);
        assert(search_witness(
            nums,
            target,
            zero,
            path,
            Seq::<int>::empty(),
            v,
            start,
            plus,
            is_match,
            exceeds,
        ) && dfs_le(Seq::<int>::empty(), idx_w));
    } else {
        if idx_w.len() == 0 {
            assert(path + values_at(nums, idx_w) =~= path);
            assert(false);
        }
        assert(idx_w.take(0) =~= Seq::<int>::empty());
        assert(path + values_at(nums, idx_w.take(0)) =~= path);
        assert(!apply2(exceeds, s, target));
        let fst = lemma_children_first_some(
            nums,
            target,
            zero,
            path,
            start,
            v,
            plus,
            is_match,
            exceeds,
        );
        let j0 = idx_w[0];
        assert(start <= j0 < nums.len());
        let rest_w = idx_w.skip(1);
        let w_longer = path.push(nums[j0]);
        assert forall|k: int| 0 <= k < rest_w.len() implies j0 + 1 <= #[trigger] rest_w[k]
            < nums.len() by {
            assert(rest_w[k] == idx_w[k + 1]);
            lemma_rising_tail(idx_w, k + 1);
        }
        assert forall|k: int| 0 < k < rest_w.len() implies rest_w[k - 1] < #[trigger] rest_w[k] by {
            assert(rest_w[k - 1] == idx_w[k] && rest_w[k] == idx_w[k + 1]);
        }
        assert(rising(nums, rest_w, j0 + 1));
        assert forall|k: int|
            0 <= k < rest_w.len() implies {
            let s2 = sum_spec(plus, zero, w_longer + values_at(nums, #[trigger] rest_w.take(k)));
            !apply2(is_match, s2, target) && !apply2(exceeds, s2, target)
        } by {
            assert forall|m: int| 0 <= m < k implies #[trigger] rest_w.take(k)[m]
                == idx_w.take(k + 1)[m + 1] by {}
            assert(w_longer + values_at(nums, rest_w.take(k)) =~= path + values_at(
                nums,
                idx_w.take(k + 1),
            ));
        }
        assert(ancestry_open(nums, target, zero, w_longer, rest_w, plus, is_match, exceeds));
        assert(w_longer + values_at(nums, rest_w) =~= path + values_at(nums, idx_w));
        if j0 < fst {
            lemma_none_overlooks_nothing(
                nums,
                target,
                zero,
                w_longer,
                j0 + 1,
                rest_w,
                plus,
                is_match,
                exceeds,
            );
            assert(false);
        } else if j0 == fst {
            assert(search_witness(
                nums,
                target,
                zero,
                w_longer,
                rest_w,
                w_longer + values_at(nums, rest_w),
                fst + 1,
                plus,
                is_match,
                exceeds,
            ));
            lemma_first_match(
                nums,
                target,
                zero,
                w_longer,
                fst + 1,
                rest_w,
                v,
                plus,
                is_match,
                exceeds,
            );
            let idx0 = choose|idx0: Seq<int>|
                #[trigger] search_witness(
                    nums,
                    target,
                    zero,
                    w_longer,
                    idx0,
                    v,
                    fst + 1,
                    plus,
                    is_match,
                    exceeds,
                ) && dfs_le(idx0, rest_w);
            lemma_witness_cons(
                nums,
                target,
                zero,
                path,
                fst,
                idx0,
                v,
                start,
                plus,
                is_match,
                exceeds,
            );
            let idx = seq![fst] + idx0;
            assert(idx.skip(1) =~= idx0);
            assert(idx[0] == j0 == idx_w[0]);
            assert(dfs_le(idx, idx_w));
        } else {
            let f_longer = path.push(nums[fst]);
            lemma_some_has_witness(
                nums,
                target,
                zero,
                f_longer,
                fst + 1,
                v,
                plus,
                is_match,
                exceeds,
            );
            let idx0 = choose|idx0: Seq<int>|
                #[trigger] search_witness(
                    nums,
                    target,
                    zero,
                    f_longer,
                    idx0,
                    v,
                    fst + 1,
                    plus,
                    is_match,
                    exceeds,
                );
            lemma_witness_cons(
                nums,
                target,
                zero,
                path,
                fst,
                idx0,
                v,
                start,
                plus,
                is_match,
                exceeds,
            );
            let idx = seq![fst] + idx0;
            assert(idx[0] == fst < j0);
            assert(dfs_le(idx, idx_w));
        }
    }
}

} // verus!
