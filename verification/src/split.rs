//! Dividing a set of boxes in two: in the middle of the list, at the middle
//! of the widest axis of the centroids, or at the bucket boundary of least
//! estimated traversal cost.

use vstd::prelude::*;
use crate::aabb::AABB;
use crate::scalar::Scalar;
use crate::scalar::TWO_BITS;
use crate::scalar::ZERO_BITS;
use crate::utils::component_wise_range;
use crate::utils::high_corner;
use crate::utils::low_corner;
use crate::vector::Point3;

verus! {

/// How a set of more than four boxes is divided.
#[derive(Clone, Copy, Debug, PartialEq, Eq, Structural)]
pub enum SplitType {
    /// At the midpoint of the widest axis of the centroids.
    Basic,
    /// At the bucket boundary that the surface area heuristic prefers.
    SAH,
}

/// The boxes that the indices name, in the order of the indices.
pub open spec fn select(boxes: Seq<AABB>, indices: Seq<usize>) -> Seq<AABB> {
    Seq::new(indices.len(), |k: int| boxes[indices[k] as int])
}

/// Whether every index names a box.
pub open spec fn in_range(indices: Seq<usize>, n: int) -> bool {
    forall|k: int| 0 <= k < indices.len() ==> (#[trigger] indices[k]) < n
}

/// The items whose flag equals `side`, in their order.
pub open spec fn pick(items: Seq<usize>, flags: Seq<bool>, side: bool) -> Seq<usize>
    decreases items.len(),
{
    if items.len() == 0 {
        Seq::empty()
    } else if flags[items.len() - 1] == side {
        pick(items.drop_last(), flags, side).push(items.last())
    } else {
        pick(items.drop_last(), flags, side)
    }
}

/// The two sides of a picking hold every item once.
pub proof fn lemma_pick_partitions(items: Seq<usize>, flags: Seq<bool>)
    requires
        flags.len() >= items.len(),
    ensures
        pick(items, flags, true).len() + pick(items, flags, false).len() == items.len(),
        pick(items, flags, true).to_multiset().add(pick(items, flags, false).to_multiset())
            == items.to_multiset(),
    decreases items.len(),
{
    broadcast use vstd::seq_lib::group_to_multiset_ensures;

    if items.len() == 0 {
        assert(pick(items, flags, true).to_multiset() =~= items.to_multiset());
        assert(pick(items, flags, true).to_multiset().add(pick(items, flags, false).to_multiset())
            =~= items.to_multiset());
    } else {
        lemma_pick_partitions(items.drop_last(), flags);
        assert(items.drop_last().push(items.last()) == items);
        assert(pick(items, flags, true).to_multiset().add(pick(items, flags, false).to_multiset())
            =~= items.to_multiset());
    }
}

/// Every picked item is one of the items.
pub proof fn lemma_pick_members(items: Seq<usize>, flags: Seq<bool>, side: bool, n: int)
    requires
        in_range(items, n),
    ensures
        in_range(pick(items, flags, side), n),
        pick(items, flags, side).len() <= items.len(),
    decreases items.len(),
{
    if items.len() > 0 {
        lemma_pick_members(items.drop_last(), flags, side, n);
    }
}

/// The centre of a box on one axis: `((0 + min) + max) / 2`.
pub open spec fn centre_on(b: AABB, axis: int) -> Scalar {
    Scalar { bits: ZERO_BITS }.plus(b.min.coordinate(axis)).plus(b.max.coordinate(axis)).over(
        Scalar { bits: TWO_BITS },
    )
}

/// The centroid of a box: the mean of its two corners.
pub open spec fn centre(b: AABB) -> Point3 {
    Point3 { x: centre_on(b, 0), y: centre_on(b, 1), z: centre_on(b, 2) }
}

/// The centroids of the boxes, in order.
pub open spec fn centres(members: Seq<AABB>) -> Seq<Point3> {
    Seq::new(members.len(), |k: int| centre(members[k]))
}

/// The axis on which the range from `lo` to `hi` is widest; of equally
/// wide axes the first.
pub open spec fn widest_axis(lo: Point3, hi: Point3) -> int {
    let diff = hi.from(lo);
    let (max, maxdim) = if diff.x.less(diff.y) {
        (diff.y, 1int)
    } else {
        (diff.x, 0int)
    };
    if max.less(diff.z) {
        2
    } else {
        maxdim
    }
}

/// The middle of the range on an axis: `(hi + lo) / 2`.
pub open spec fn middle(lo: Point3, hi: Point3, axis: int) -> Scalar {
    hi.coordinate(axis).plus(lo.coordinate(axis)).over(Scalar { bits: TWO_BITS })
}

/// For each box, whether its centroid lies below the middle of the range
/// from `lo` to `hi` on the axis.
pub open spec fn middle_flags(members: Seq<AABB>, lo: Point3, hi: Point3, axis: int) -> Seq<
    bool,
> {
    Seq::new(
        members.len(),
        |k: int| centre(members[k]).coordinate(axis).less(middle(lo, hi, axis)),
    )
}

/// For each box, whether its centroid lies below the middle of the widest
/// axis of the centroids' range.
pub open spec fn below_middle(members: Seq<AABB>) -> Seq<bool> {
    let lo = low_corner(centres(members));
    let hi = high_corner(centres(members));
    middle_flags(members, lo, hi, widest_axis(lo, hi))
}

/// The centroid of a box.
pub fn centroid(b: &AABB) -> (c: Point3)
    ensures
        c == centre(*b),
{
    let zero = Scalar::zero();
    let two = Scalar::from_bits(TWO_BITS);
    Point3::new(
        zero.add(b.min.x).add(b.max.x).div(two),
        zero.add(b.min.y).add(b.max.y).div(two),
        zero.add(b.min.z).add(b.max.z).div(two),
    )
}

/// The centroids of the boxes that the indices name.
pub fn centroids(boxes: &Vec<AABB>, indices: &Vec<usize>) -> (r: Vec<Point3>)
    requires
        in_range(indices@, boxes.len() as int),
    ensures
        r@ == centres(select(boxes@, indices@)),
{
    let mut r: Vec<Point3> = Vec::new();
    let mut k: usize = 0;
    while k < indices.len()
        invariant
            0 <= k <= indices.len(),
            in_range(indices@, boxes.len() as int),
            r.len() == k,
            forall|j: int| 0 <= j < k ==> r[j] == centre(boxes[indices[j] as int]),
        decreases indices.len() - k,
    {
        r.push(centroid(&boxes[indices[k]]));
        k = k + 1;
    }
    assert(r@ =~= centres(select(boxes@, indices@)));
    r
}

/// The index of the axis with the widest range of positions.
pub fn widest(lo: Point3, hi: Point3) -> (axis: usize)
    ensures
        axis == widest_axis(lo, hi),
        axis < 3,
{
    let diff = hi.sub(lo);
    let mut maxdim: usize = 0;
    let mut max = diff.x;
    if diff.y.gt(max) {
        max = diff.y;
        maxdim = 1;
    }
    if diff.z.gt(max) {
        maxdim = 2;
    }
    maxdim
}

/// Distributes the items over two lists by their flags, keeping the order.
pub fn partition(items: &Vec<usize>, flags: &Vec<bool>) -> (r: (Vec<usize>, Vec<usize>))
    requires
        flags.len() == items.len(),
    ensures
        r.0@ == pick(items@, flags@, true),
        r.1@ == pick(items@, flags@, false),
{
    let mut left: Vec<usize> = Vec::new();
    let mut right: Vec<usize> = Vec::new();
    let mut k: usize = 0;
    while k < items.len()
        invariant
            0 <= k <= items.len(),
            flags.len() == items.len(),
            left@ == pick(items@.take(k as int), flags@, true),
            right@ == pick(items@.take(k as int), flags@, false),
        decreases items.len() - k,
    {
        proof {
            let next = items@.take(k + 1);
            assert(next.drop_last() == items@.take(k as int));
            assert(next.last() == items@[k as int]);
        }
        if flags[k] {
            left.push(items[k]);
        } else {
            right.push(items[k]);
        }
        k = k + 1;
    }
    proof {
        assert(items@.take(items.len() as int) == items@);
    }
    (left, right)
}

/// Splits the list arbitrarily into two halves: the first `len / 2` items
/// and the rest.
pub fn bvh_split_naive(indices: Vec<usize>) -> (r: (Vec<usize>, Vec<usize>))
    ensures
        r.0@ == indices@.take(indices.len() as int / 2),
        r.1@ == indices@.skip(indices.len() as int / 2),
{
    let mid = indices.len() / 2;
    let mut left = indices;
    let right = left.split_off(mid);
    (left, right)
}

/// The number of buckets into which the surface area heuristic sorts the
/// centroids.
pub const N_BUCKETS: usize = 12;

/// The pattern of `12.0`, the number of buckets.
pub const TWELVE_BITS: u32 = 0x4140_0000;

/// The pattern of `0.125`, the estimated cost of descending into a node
/// relative to that of testing a primitive.
pub const EIGHTH_BITS: u32 = 0x3e00_0000;

/// The bucket of a centroid coordinate `c` in the range that starts at `lo`
/// and is `range` wide: `12 * (c - lo) / range` cut off to an integer, and
/// the last bucket for anything beyond it.
pub open spec fn slot_of(c: Scalar, lo: Scalar, range: Scalar) -> int {
    let n = Scalar { bits: TWELVE_BITS }.times(c.minus(lo)).over(range).truncated();
    if n >= 12 {
        11
    } else {
        n
    }
}

/// The bucket of each box, by its centroid on `axis` within `global`.
pub open spec fn slots(members: Seq<AABB>, global: AABB, axis: int) -> Seq<int> {
    Seq::new(
        members.len(),
        |k: int|
            slot_of(
                centre(members[k]).coordinate(axis),
                global.min.coordinate(axis),
                global.max.coordinate(axis).minus(global.min.coordinate(axis)),
            ),
    )
}

/// How many of the slots are bucket `j`.
pub open spec fn bucket_count(slots: Seq<int>, j: int) -> nat
    decreases slots.len(),
{
    if slots.len() == 0 {
        0
    } else if slots.last() == j {
        bucket_count(slots.drop_last(), j) + 1
    } else {
        bucket_count(slots.drop_last(), j)
    }
}

/// The box of bucket `j`: the union of the boxes of its members, taken in
/// order; the empty box, which is the identity of the union, for a bucket
/// without members.
pub open spec fn bucket_box(members: Seq<AABB>, slots: Seq<int>, j: int) -> AABB
    decreases members.len(),
{
    if members.len() == 0 {
        AABB::origin_box()
    } else if slots[members.len() - 1] == j {
        AABB::hull(seq![bucket_box(members.drop_last(), slots, j), members.last()])
    } else {
        bucket_box(members.drop_last(), slots, j)
    }
}

/// The member counts of the twelve buckets.
pub open spec fn bucket_counts(slots: Seq<int>) -> Seq<usize> {
    Seq::new(N_BUCKETS as nat, |j: int| bucket_count(slots, j) as usize)
}

/// The boxes of the twelve buckets.
pub open spec fn bucket_boxes(members: Seq<AABB>, slots: Seq<int>) -> Seq<AABB> {
    Seq::new(N_BUCKETS as nat, |j: int| bucket_box(members, slots, j))
}

/// The sum of the counts from position `from` up to `to`, each count turned
/// into a number and added in order, starting from zero.
pub open spec fn tally(counts: Seq<usize>, from: int, to: int) -> Scalar
    decreases to - from,
{
    if to <= from {
        Scalar { bits: ZERO_BITS }
    } else {
        tally(counts, from, to - 1).plus(Scalar::of_size(counts[to - 1]))
    }
}

/// The estimated cost of splitting after bucket `i`:
/// `0.125 + (count_left * area_left + count_right * area_right) / area`.
pub open spec fn split_cost(counts: Seq<usize>, boxes: Seq<AABB>, global: AABB, i: int) -> Scalar {
    let area_left = AABB::hull(boxes.subrange(0, i + 1)).area();
    let area_right = AABB::hull(boxes.subrange(i + 1, N_BUCKETS as int)).area();
    let count_left = tally(counts, 0, i + 1);
    let count_right = tally(counts, i + 1, N_BUCKETS as int);
    Scalar { bits: EIGHTH_BITS }.plus(
        count_left.times(area_left).plus(count_right.times(area_right)).over(global.area()),
    )
}

/// The costs of the eleven places to split.
pub open spec fn split_costs(counts: Seq<usize>, boxes: Seq<AABB>, global: AABB) -> Seq<Scalar> {
    Seq::new((N_BUCKETS - 1) as nat, |i: int| split_cost(counts, boxes, global, i))
}

/// The position of the least of the first `n` costs; of equal costs the
/// first. A cost that is not a number is never less than another.
pub open spec fn cheapest(costs: Seq<Scalar>, n: int) -> int
    decreases n,
{
    if n <= 1 {
        0
    } else {
        let best = cheapest(costs, n - 1);
        if costs[n - 1].less(costs[best]) {
            n - 1
        } else {
            best
        }
    }
}

/// The cheapest of the first `n` costs is one of them.
pub proof fn lemma_cheapest_in_range(costs: Seq<Scalar>, n: int)
    requires
        n >= 1,
    ensures
        0 <= cheapest(costs, n) < n,
    decreases n,
{
    if n > 1 {
        lemma_cheapest_in_range(costs, n - 1);
    }
}

/// The cheapest split is not dearer than any other.
pub proof fn lemma_cheapest_is_least(costs: Seq<Scalar>, n: int, i: int)
    requires
        0 <= i < n <= costs.len(),
    ensures
        !costs[i].less(costs[cheapest(costs, n)]),
    decreases n,
{
    if n > 1 {
        lemma_cheapest_in_range(costs, n - 1);
        if i < n - 1 {
            lemma_cheapest_is_least(costs, n - 1, i);
        }
    }
}

/// The bucket after which the surface area heuristic splits.
pub open spec fn sah_bucket(members: Seq<AABB>, global: AABB, axis: int) -> int {
    let s = slots(members, global, axis);
    cheapest(
        split_costs(bucket_counts(s), bucket_boxes(members, s), global),
        N_BUCKETS as int - 1,
    )
}

/// For each box, whether its bucket is at or before the one after which the
/// surface area heuristic splits.
pub open spec fn sah_flags(members: Seq<AABB>, global: AABB, axis: int) -> Seq<bool> {
    Seq::new(
        members.len(),
        |k: int| slots(members, global, axis)[k] <= sah_bucket(members, global, axis),
    )
}

/// Whether the range of the centroids has no width on the axis, so that
/// it cannot be divided into buckets.
pub open spec fn flat(global: AABB, axis: int) -> bool {
    global.max.coordinate(axis).minus(global.min.coordinate(axis)).same(
        Scalar { bits: ZERO_BITS },
    )
}

/// For each box, whether the surface area heuristic sends it to the left:
/// its bucket is at or before the one after which the cost is least. Where
/// the range of the centroids has no width on the axis, nothing is divided
/// by it: the midpoint of the range decides, as in the basic split.
pub open spec fn sah_or_middle(members: Seq<AABB>, global: AABB, axis: int) -> Seq<bool> {
    if flat(global, axis) {
        middle_flags(members, global.min, global.max, axis)
    } else {
        sah_flags(members, global, axis)
    }
}

/// For each box, whether the split sends it to the left: by the surface
/// area heuristic for more than four boxes, where it is asked for and the
/// centroids are numbers; below the middle of the widest axis otherwise.
pub open spec fn split_flags(members: Seq<AABB>, split_type: SplitType) -> Seq<bool> {
    let lo = low_corner(centres(members));
    let hi = high_corner(centres(members));
    if members.len() <= 4 || split_type == SplitType::Basic || !(AABB { min: lo, max: hi }).valid() {
        below_middle(members)
    } else {
        sah_or_middle(members, AABB { min: lo, max: hi }, widest_axis(lo, hi))
    }
}

/// A bucket holds no more members than there are.
pub proof fn lemma_bucket_count_bound(slots: Seq<int>, j: int)
    ensures
        bucket_count(slots, j) <= slots.len(),
    decreases slots.len(),
{
    if slots.len() > 0 {
        lemma_bucket_count_bound(slots.drop_last(), j);
    }
}

/// The bucket of a centroid coordinate.
fn slot(c: Scalar, lo: Scalar, range: Scalar) -> (b: usize)
    ensures
        b == slot_of(c, lo, range),
        b < N_BUCKETS,
{
    let n: u32 = Scalar::from_bits(TWELVE_BITS).mul(c.sub(lo)).div(range).to_u32();
    if n >= 12 {
        11
    } else {
        n as usize
    }
}

/// The sum of the counts from position `from` up to `to`.
fn sum_counts(counts: &Vec<usize>, from: usize, to: usize) -> (r: Scalar)
    requires
        from <= to <= counts.len(),
    ensures
        r == tally(counts@, from as int, to as int),
{
    let mut r = Scalar::zero();
    let mut j: usize = from;
    while j < to
        invariant
            from <= j <= to <= counts.len(),
            r == tally(counts@, from as int, j as int),
        decreases to - j,
    {
        r = r.add(Scalar::from_usize(counts[j]));
        j = j + 1;
    }
    r
}

/// The hull of the boxes from position `from` up to `to`.
fn hull_of_range(boxes: &Vec<AABB>, from: usize, to: usize) -> (r: AABB)
    requires
        from <= to <= boxes.len(),
        forall|j: int| 0 <= j < boxes.len() ==> (#[trigger] boxes[j]).valid(),
    ensures
        r == AABB::hull(boxes@.subrange(from as int, to as int)),
{
    let mut part: Vec<AABB> = Vec::new();
    let mut j: usize = from;
    while j < to
        invariant
            from <= j <= to <= boxes.len(),
            part@ == boxes@.subrange(from as int, j as int),
        decreases to - j,
    {
        part.push(boxes[j]);
        assert(part@ =~= boxes@.subrange(from as int, j + 1));
        j = j + 1;
    }
    AABB::union(part)
}

/// The position of the least cost; of equal costs the first.
fn cheapest_of(costs: &Vec<Scalar>) -> (best: usize)
    requires
        costs.len() >= 1,
    ensures
        best == cheapest(costs@, costs.len() as int),
        best < costs.len(),
{
    let mut min_cost = costs[0];
    let mut min_cost_i: usize = 0;
    let mut i: usize = 1;
    while i < costs.len()
        invariant
            1 <= i <= costs.len(),
            min_cost_i == cheapest(costs@, i as int),
            min_cost_i < i,
            min_cost == costs[min_cost_i as int],
        decreases costs.len() - i,
    {
        if costs[i].lt(min_cost) {
            min_cost = costs[i];
            min_cost_i = i;
        }
        i = i + 1;
    }
    min_cost_i
}

/// Whether every box is valid.
pub open spec fn all_valid(boxes: Seq<AABB>) -> bool {
    forall|i: int| 0 <= i < boxes.len() ==> (#[trigger] boxes[i]).valid()
}

/// The hull of two valid boxes is valid.
proof fn lemma_pair_hull_valid(a: AABB, b: AABB)
    requires
        a.valid(),
        b.valid(),
    ensures
        AABB::hull(seq![a, b]).valid(),
{
    AABB::lemma_hull_valid(seq![a, b]);
}

/// Splits the boxes at the middle of the range from `lo` to `hi` on the
/// axis: those whose centroid lies below it, and the others.
fn split_by_middle(
    boxes: &Vec<AABB>,
    indices: &Vec<usize>,
    centroids: &Vec<Point3>,
    lo: Point3,
    hi: Point3,
    dim: usize,
) -> (r: (Vec<usize>, Vec<usize>))
    requires
        in_range(indices@, boxes.len() as int),
        centroids@ == centres(select(boxes@, indices@)),
    ensures
        r.0@ == pick(indices@, middle_flags(select(boxes@, indices@), lo, hi, dim as int), true),
        r.1@ == pick(indices@, middle_flags(select(boxes@, indices@), lo, hi, dim as int), false),
{
    let ghost members = select(boxes@, indices@);
    let midpoint = hi.get(dim).add(lo.get(dim)).div(Scalar::from_bits(TWO_BITS));
    let mut below: Vec<bool> = Vec::new();
    let mut k: usize = 0;
    while k < centroids.len()
        invariant
            0 <= k <= centroids.len(),
            centroids@ == centres(members),
            below.len() == k,
            forall|i: int|
                0 <= i < k ==> below[i] == centroids[i].coordinate(dim as int).less(midpoint),
        decreases centroids.len() - k,
    {
        below.push(centroids[k].get(dim).lt(midpoint));
        k = k + 1;
    }
    assert(below@ =~= middle_flags(members, lo, hi, dim as int));
    partition(indices, &below)
}

/// Splits the boxes into two halves in order to minimize the expected cost
/// of a ray intersection query using the surface area heuristic. Where the
/// centroids are all the same on the axis, their range has no buckets and
/// nothing is divided by its width: the halves are those of the split at
/// the midpoint.
pub fn bvh_split_by_sah(
    boxes: &Vec<AABB>,
    indices: &Vec<usize>,
    centroids: &Vec<Point3>,
    global_bb: AABB,
    dim: usize,
) -> (r: (Vec<usize>, Vec<usize>))
    requires
        all_valid(boxes@),
        in_range(indices@, boxes.len() as int),
        centroids@ == centres(select(boxes@, indices@)),
    ensures
        r.0@ == pick(
            indices@,
            sah_or_middle(select(boxes@, indices@), global_bb, dim as int),
            true,
        ),
        r.1@ == pick(
            indices@,
            sah_or_middle(select(boxes@, indices@), global_bb, dim as int),
            false,
        ),
{
    let ghost members = select(boxes@, indices@);
    let ghost all_slots = slots(members, global_bb, dim as int);
    let n = indices.len();

    let lo = global_bb.min.get(dim);
    let dim_range = global_bb.max.get(dim).sub(lo);
    if dim_range.equals(Scalar::zero()) {
        // A range of no width has no buckets: the midpoint decides.
        return split_by_middle(boxes, indices, centroids, global_bb.min, global_bb.max, dim);
    }

    // Sort the members into the buckets.
    let mut counts: Vec<usize> = Vec::new();
    let mut aabbs: Vec<AABB> = Vec::new();
    let mut j: usize = 0;
    while j < N_BUCKETS
        invariant
            0 <= j <= N_BUCKETS,
            counts.len() == j,
            aabbs.len() == j,
            forall|b: int| 0 <= b < j ==> counts[b] == 0,
            forall|b: int| 0 <= b < j ==> aabbs[b] == AABB::origin_box(),
        decreases N_BUCKETS - j,
    {
        counts.push(0);
        aabbs.push(AABB::empty());
        j = j + 1;
    }
    let mut b_inds: Vec<usize> = Vec::new();
    let mut k: usize = 0;
    while k < n
        invariant
            0 <= k <= n,
            n == indices.len(),
            all_valid(boxes@),
            in_range(indices@, boxes.len() as int),
            members == select(boxes@, indices@),
            centroids@ == centres(members),
            all_slots == slots(members, global_bb, dim as int),
            lo == global_bb.min.coordinate(dim as int),
            dim_range == global_bb.max.coordinate(dim as int).minus(lo),
            b_inds.len() == k,
            forall|i: int| 0 <= i < k ==> b_inds[i] == all_slots[i],
            counts.len() == N_BUCKETS,
            aabbs.len() == N_BUCKETS,
            forall|b: int|
                0 <= b < N_BUCKETS ==> counts[b] == bucket_count(all_slots.take(k as int), b),
            forall|b: int|
                0 <= b < N_BUCKETS ==> aabbs[b] == bucket_box(members.take(k as int), all_slots, b),
            forall|b: int| 0 <= b < N_BUCKETS ==> (#[trigger] aabbs[b]).valid(),
        decreases n - k,
    {
        let b_ind = slot(centroids[k].get(dim), lo, dim_range);
        assert(b_ind == all_slots[k as int]);
        let obj_bb = boxes[indices[k]];
        assert(obj_bb == members[k as int]);
        assert(obj_bb.valid());
        proof {
            lemma_bucket_count_bound(all_slots.take(k as int), b_ind as int);
            lemma_pair_hull_valid(aabbs[b_ind as int], obj_bb);
            assert(all_slots.take(k + 1).drop_last() == all_slots.take(k as int));
            assert(all_slots.take(k + 1).last() == all_slots[k as int]);
            assert(members.take(k + 1).drop_last() == members.take(k as int));
            assert(members.take(k + 1).last() == members[k as int]);
        }
        let count = counts[b_ind];
        counts.set(b_ind, count + 1);
        let grown = AABB::union_pair(aabbs[b_ind], obj_bb);
        aabbs.set(b_ind, grown);
        b_inds.push(b_ind);
        k = k + 1;
    }
    proof {
        assert(all_slots.take(n as int) == all_slots);
        assert(members.take(n as int) == members);
        assert(counts@ =~= bucket_counts(all_slots)) by {
            assert forall|b: int| 0 <= b < N_BUCKETS implies counts[b] == bucket_counts(
                all_slots,
            )[b] by {
                lemma_bucket_count_bound(all_slots, b);
            }
        }
        assert(aabbs@ =~= bucket_boxes(members, all_slots));
    }

    // Compute the cost of splitting after each bucket but the last.
    let mut costs: Vec<Scalar> = Vec::new();
    let global_area = global_bb.surface_area();
    let mut i: usize = 0;
    while i < N_BUCKETS - 1
        invariant
            0 <= i <= N_BUCKETS - 1,
            counts.len() == N_BUCKETS,
            aabbs.len() == N_BUCKETS,
            forall|b: int| 0 <= b < N_BUCKETS ==> (#[trigger] aabbs[b]).valid(),
            global_area == global_bb.area(),
            costs.len() == i,
            forall|c: int|
                0 <= c < i ==> costs[c] == split_cost(counts@, aabbs@, global_bb, c),
        decreases N_BUCKETS - 1 - i,
    {
        let bb_left = hull_of_range(&aabbs, 0, i + 1);
        let count_left = sum_counts(&counts, 0, i + 1);
        let bb_right = hull_of_range(&aabbs, i + 1, N_BUCKETS);
        let count_right = sum_counts(&counts, i + 1, N_BUCKETS);
        let cost = Scalar::from_bits(EIGHTH_BITS).add(
            count_left.mul(bb_left.surface_area()).add(
                count_right.mul(bb_right.surface_area()),
            ).div(global_area),
        );
        costs.push(cost);
        i = i + 1;
    }
    assert(costs@ =~= split_costs(counts@, aabbs@, global_bb));

    // Find the bucket with the minimum cost and split after it.
    let min_cost_i = cheapest_of(&costs);
    assert(min_cost_i == sah_bucket(members, global_bb, dim as int));
    let mut left_inds: Vec<bool> = Vec::new();
    let mut k: usize = 0;
    while k < n
        invariant
            0 <= k <= n,
            b_inds.len() == n,
            left_inds.len() == k,
            forall|i: int| 0 <= i < k ==> left_inds[i] == (b_inds[i] <= min_cost_i),
        decreases n - k,
    {
        left_inds.push(b_inds[k] <= min_cost_i);
        k = k + 1;
    }
    assert(left_inds@ =~= sah_flags(members, global_bb, dim as int));
    partition(indices, &left_inds)
}

/// Splits the boxes into two halves along the dimension with the largest
/// range in centroid positions: down the midpoint of that range for
/// `Basic` and for sets of at most four, by bucketing and the surface area
/// heuristic for `SAH`.
pub fn bvh_split(boxes: &Vec<AABB>, indices: &Vec<usize>, split_type: SplitType) -> (r: (
    Vec<usize>,
    Vec<usize>,
))
    requires
        all_valid(boxes@),
        in_range(indices@, boxes.len() as int),
        0 < indices.len(),
    ensures
        r.0@ == pick(indices@, split_flags(select(boxes@, indices@), split_type), true),
        r.1@ == pick(indices@, split_flags(select(boxes@, indices@), split_type), false),
{
    let ghost members = select(boxes@, indices@);
    let cs = centroids(boxes, indices);

    // Find the dimension with the largest range.
    let (min_c, max_c) = component_wise_range(&cs);
    let maxdim = widest(min_c, max_c);

    // For small sets we always use the basic split strategy.
    let basic = match split_type {
        SplitType::Basic => true,
        SplitType::SAH => false,
    };
    match AABB::checked(min_c, max_c) {
        Some(global_bb) if indices.len() > 4 && !basic => {
            bvh_split_by_sah(boxes, indices, &cs, global_bb, maxdim)
        },
        _ => split_by_middle(boxes, indices, &cs, min_c, max_c, maxdim),
    }
}

/// The place of a box in the order along the x axis: the rank of the x
/// coordinate of its low corner.
pub open spec fn x_key(boxes: Seq<AABB>, index: usize) -> int {
    boxes[index as int].min.x.rank()
}

/// Whether the boxes that the indices name are in the order of their low
/// corners on the x axis.
pub open spec fn ordered_by_x(boxes: Seq<AABB>, indices: Seq<usize>) -> bool {
    forall|i: int, j: int|
        0 <= i <= j < indices.len() ==> x_key(boxes, #[trigger] indices[i]) <= x_key(
            boxes,
            #[trigger] indices[j],
        )
}

/// The indices whose boxes have the place `key` in the order along the x
/// axis, in their order.
pub open spec fn with_key(boxes: Seq<AABB>, indices: Seq<usize>, key: int) -> Seq<usize>
    decreases indices.len(),
{
    if indices.len() == 0 {
        Seq::empty()
    } else if x_key(boxes, indices.last()) == key {
        with_key(boxes, indices.drop_last(), key).push(indices.last())
    } else {
        with_key(boxes, indices.drop_last(), key)
    }
}

/// Among the indices of a joined list with a given place are those of the
/// first part, then those of the second.
proof fn lemma_with_key_joined(boxes: Seq<AABB>, a: Seq<usize>, b: Seq<usize>, key: int)
    ensures
        with_key(boxes, a + b, key) == with_key(boxes, a, key) + with_key(boxes, b, key),
    decreases b.len(),
{
    if b.len() == 0 {
        assert(a + b =~= a);
        assert(with_key(boxes, a, key) + with_key(boxes, b, key) =~= with_key(boxes, a, key));
    } else {
        lemma_with_key_joined(boxes, a, b.drop_last(), key);
        assert((a + b).drop_last() =~= a + b.drop_last());
        assert((a + b).last() == b.last());
        assert(with_key(boxes, a + b, key) =~= with_key(boxes, a, key) + with_key(
            boxes,
            b,
            key,
        ));
    }
}

/// A single index is among those with a place where that is its own.
proof fn lemma_with_key_single(boxes: Seq<AABB>, index: usize, key: int)
    ensures
        with_key(boxes, seq![index], key) == if x_key(boxes, index) == key {
            seq![index]
        } else {
            Seq::<usize>::empty()
        },
{
    let one = seq![index];
    assert(one.drop_last() =~= Seq::<usize>::empty());
    assert(one.last() == index);
    assert(with_key(boxes, one.drop_last(), key) =~= Seq::<usize>::empty());
    assert(Seq::<usize>::empty().push(index) =~= one);
}

/// No index has a place that none of the indices has.
proof fn lemma_with_key_absent(boxes: Seq<AABB>, indices: Seq<usize>, key: int)
    requires
        forall|i: int| 0 <= i < indices.len() ==> x_key(boxes, #[trigger] indices[i]) != key,
    ensures
        with_key(boxes, indices, key) == Seq::<usize>::empty(),
    decreases indices.len(),
{
    if indices.len() > 0 {
        assert forall|i: int| 0 <= i < indices.drop_last().len() implies x_key(
            boxes,
            #[trigger] indices.drop_last()[i],
        ) != key by {
            assert(indices.drop_last()[i] == indices[i]);
        }
        lemma_with_key_absent(boxes, indices.drop_last(), key);
        assert(x_key(boxes, indices[indices.len() - 1]) != key);
    }
}

/// The indices in the order of the low corners of their boxes on the x
/// axis. Indices whose boxes start at the same x keep their order.
pub fn sort_by_x_axis(boxes: &Vec<AABB>, indices: &Vec<usize>) -> (sorted: Vec<usize>)
    requires
        in_range(indices@, boxes.len() as int),
    ensures
        sorted@.to_multiset() == indices@.to_multiset(),
        sorted.len() == indices.len(),
        in_range(sorted@, boxes.len() as int),
        ordered_by_x(boxes@, sorted@),
        forall|key: int| with_key(boxes@, sorted@, key) == with_key(boxes@, indices@, key),
{
    broadcast use vstd::seq_lib::group_to_multiset_ensures;

    let mut sorted: Vec<usize> = Vec::new();
    let mut k: usize = 0;
    assert(indices@.take(0) =~= Seq::<usize>::empty());
    while k < indices.len()
        invariant
            0 <= k <= indices.len(),
            in_range(indices@, boxes.len() as int),
            in_range(sorted@, boxes.len() as int),
            sorted.len() == k,
            sorted@.to_multiset() == indices@.take(k as int).to_multiset(),
            ordered_by_x(boxes@, sorted@),
            forall|key: int|
                with_key(boxes@, sorted@, key) == with_key(boxes@, indices@.take(k as int), key),
        decreases indices.len() - k,
    {
        let index = indices[k];
        let key = boxes[index].min.x.rank_of();
        let mut at: usize = 0;
        while at < sorted.len() && boxes[sorted[at]].min.x.rank_of() <= key
            invariant
                0 <= at <= sorted.len(),
                in_range(sorted@, boxes.len() as int),
                index < boxes.len(),
                key == x_key(boxes@, index),
                forall|i: int| 0 <= i < at ==> x_key(boxes@, #[trigger] sorted[i]) <= key,
            decreases sorted.len() - at,
        {
            at = at + 1;
        }
        let ghost before = sorted@;
        let ghost taken = indices@.take(k as int);
        assert(at < before.len() ==> x_key(boxes@, before[at as int]) > key);
        sorted.insert(at, index);
        proof {
            let head = before.take(at as int);
            let tail = before.skip(at as int);
            assert(indices@.take(k + 1) =~= taken.push(index));
            vstd::seq_lib::to_multiset_build(taken, index);
            vstd::seq_lib::to_multiset_insert(before, at as int, index);
            assert(sorted@ == before.insert(at as int, index));
            assert forall|i: int, j: int| 0 <= i <= j < sorted.len() implies x_key(
                boxes@,
                #[trigger] sorted[i],
            ) <= x_key(boxes@, #[trigger] sorted[j]) by {
                if i < at && j > at {
                    assert(sorted[i] == before[i]);
                    assert(sorted[j] == before[j - 1]);
                } else if i < at && j < at {
                    assert(sorted[i] == before[i]);
                    assert(sorted[j] == before[j]);
                } else if i > at {
                    assert(sorted[i] == before[i - 1]);
                    assert(sorted[j] == before[j - 1]);
                } else if i == at && j > at {
                    assert(sorted[j] == before[j - 1]);
                    assert(x_key(boxes@, before[at as int]) <= x_key(boxes@, before[j - 1]));
                } else if j == at && i < at {
                    assert(sorted[i] == before[i]);
                }
            }
            assert forall|i: int| 0 <= i < sorted.len() implies (#[trigger] sorted[i])
                < boxes.len() by {
                if i < at {
                    assert(sorted[i] == before[i]);
                } else if i > at {
                    assert(sorted[i] == before[i - 1]);
                }
            }
            // Those with one place keep their order: the new index comes
            // after all that have its place, and changes no other place.
            assert(before =~= head + tail);
            assert(sorted@ =~= (head + seq![index]) + tail);
            assert forall|c: int| with_key(boxes@, sorted@, c) == with_key(
                boxes@,
                indices@.take(k + 1),
                c,
            ) by {
                lemma_with_key_joined(boxes@, head, tail, c);
                lemma_with_key_joined(boxes@, head + seq![index], tail, c);
                lemma_with_key_joined(boxes@, head, seq![index], c);
                lemma_with_key_single(boxes@, index, c);
                assert(with_key(boxes@, before, c) == with_key(boxes@, taken, c));
                assert(taken.push(index).drop_last() =~= taken);
                if c == key {
                    assert forall|i: int| 0 <= i < tail.len() implies x_key(
                        boxes@,
                        #[trigger] tail[i],
                    ) != c by {
                        assert(tail[i] == before[at + i]);
                        assert(x_key(boxes@, before[at as int]) <= x_key(boxes@, before[at + i]));
                    }
                    lemma_with_key_absent(boxes@, tail, c);
                    assert(with_key(boxes@, sorted@, c) =~= with_key(boxes@, head, c).push(
                        index,
                    ));
                    assert(with_key(boxes@, before, c) =~= with_key(boxes@, head, c));
                } else {
                    assert(with_key(boxes@, sorted@, c) =~= with_key(boxes@, head, c)
                        + with_key(boxes@, tail, c));
                }
            }
        }
        k = k + 1;
    }
    assert(indices@.take(indices.len() as int) == indices@);
    sorted
}

/// Splits the list into two halves after sorting by the low x coordinate
/// of the boxes; boxes that start at the same x keep their order.
pub fn bvh_split_by_x_axis(boxes: &Vec<AABB>, indices: &Vec<usize>) -> (r: (Vec<usize>, Vec<usize>))
    requires
        in_range(indices@, boxes.len() as int),
    ensures
        r.0.len() == indices.len() / 2,
        (r.0@ + r.1@).to_multiset() == indices@.to_multiset(),
        ordered_by_x(boxes@, r.0@ + r.1@),
        forall|key: int| with_key(boxes@, r.0@ + r.1@, key) == with_key(boxes@, indices@, key),
{
    let sorted = sort_by_x_axis(boxes, indices);
    let ghost whole = sorted@;
    let (left, right) = bvh_split_naive(sorted);
    assert(left@ + right@ =~= whole);
    (left, right)
}

} // verus!
