//! The bounding volume hierarchy: a binary tree of boxes over the
//! primitives of a scene, built once and then asked for the nearest
//! primitive along a ray.

use vstd::prelude::*;
use crate::aabb::AABB;
use crate::monotone::lemma_crossing_is_monotone;
use crate::object::Object;
use crate::ray::Ray;
use crate::scalar::Scalar;
use crate::scalar::ZERO_BITS;
use crate::split::all_valid;
use crate::split::bvh_split;
use crate::split::bvh_split_naive;
use crate::split::in_range;
use crate::split::lemma_pick_members;
use crate::split::lemma_pick_partitions;
use crate::split::pick;
use crate::split::select;
use crate::split::split_flags;
use crate::split::SplitType;

verus! {

/// A node of the hierarchy. The primitives are named by their indices in
/// the list that the tree was built over.
#[derive(Debug)]
pub enum BvhTree {
    /// A box, the two subtrees inside it, and the number of primitives
    /// below.
    Node(AABB, Box<BvhTree>, Box<BvhTree>, usize),
    /// A box, the primitives inside it, and their number.
    Leaf(AABB, Vec<usize>, usize),
}

/// The two halves into which a set of at least two primitives is divided:
/// by the split policy, or down the middle of the list where the policy
/// would leave one half empty.
pub open spec fn halves(boxes: Seq<AABB>, indices: Seq<usize>, split_type: SplitType) -> (
    Seq<usize>,
    Seq<usize>,
) {
    let flags = split_flags(select(boxes, indices), split_type);
    let left = pick(indices, flags, true);
    let right = pick(indices, flags, false);
    if left.len() == 0 || right.len() == 0 {
        (indices.take(indices.len() as int / 2), indices.skip(indices.len() as int / 2))
    } else {
        (left, right)
    }
}

/// Both halves are smaller than the whole, hold indices of the whole, and
/// together hold every index of the whole once.
pub proof fn lemma_halves(boxes: Seq<AABB>, indices: Seq<usize>, split_type: SplitType)
    requires
        indices.len() >= 2,
    ensures
        0 < halves(boxes, indices, split_type).0.len() < indices.len(),
        0 < halves(boxes, indices, split_type).1.len() < indices.len(),
        halves(boxes, indices, split_type).0.len() + halves(boxes, indices, split_type).1.len()
            == indices.len(),
        halves(boxes, indices, split_type).0.to_multiset().add(
            halves(boxes, indices, split_type).1.to_multiset(),
        ) == indices.to_multiset(),
        forall|n: int|
            in_range(indices, n) ==> in_range(halves(boxes, indices, split_type).0, n) && in_range(
                halves(boxes, indices, split_type).1,
                n,
            ),
{
    broadcast use vstd::seq_lib::group_to_multiset_ensures;

    let flags = split_flags(select(boxes, indices), split_type);
    let left = pick(indices, flags, true);
    let right = pick(indices, flags, false);
    assert(flags.len() == indices.len());
    lemma_pick_partitions(indices, flags);
    if left.len() == 0 || right.len() == 0 {
        let mid = indices.len() as int / 2;
        assert(indices.take(mid) + indices.skip(mid) == indices);
        vstd::seq_lib::lemma_multiset_commutative(indices.take(mid), indices.skip(mid));
    } else {
        assert forall|n: int| in_range(indices, n) implies in_range(left, n) && in_range(
            right,
            n,
        ) by {
            lemma_pick_members(indices, flags, true, n);
            lemma_pick_members(indices, flags, false, n);
        }
    }
}

/// A meeting of a ray with a primitive: the index of the primitive and the
/// parameter on the ray.
pub open spec fn meeting(objects: Seq<Object>, index: usize, ray: Ray) -> Option<(usize, Scalar)> {
    match objects[index as int].hit(ray) {
        Some(t) => Some((index, t)),
        None => None,
    }
}

/// Whether the meeting `b` comes before the meeting `a`: its parameter is
/// smaller, or the parameters are equal and its primitive stands earlier
/// in the list of primitives.
pub open spec fn before(b: (usize, Scalar), a: (usize, Scalar)) -> bool {
    b.1.less(a.1) || (b.1.same(a.1) && b.0 < a.0)
}

/// The nearer of two meetings: the first, unless there is none or the
/// second comes before it. Of two equally near meetings it is the one with
/// the earlier primitive, in whatever order the two are given.
pub open spec fn nearer_of(first: Option<(usize, Scalar)>, second: Option<(usize, Scalar)>)
    -> Option<(usize, Scalar)> {
    match (first, second) {
        (None, _) => second,
        (Some(_), None) => first,
        (Some(a), Some(b)) => if before(b, a) {
            second
        } else {
            first
        },
    }
}

/// The nearest meeting of the ray with the given primitives; of equally
/// near meetings that with the earliest primitive.
pub open spec fn leaf_nearest(objects: Seq<Object>, members: Seq<usize>, ray: Ray) -> Option<
    (usize, Scalar),
>
    decreases members.len(),
{
    if members.len() == 0 {
        None
    } else {
        nearer_of(
            leaf_nearest(objects, members.drop_last(), ray),
            meeting(objects, members.last(), ray),
        )
    }
}

/// The nearer of two meetings.
pub fn nearer(first: Option<(usize, Scalar)>, second: Option<(usize, Scalar)>) -> (r: Option<
    (usize, Scalar),
>)
    ensures
        r == nearer_of(first, second),
{
    match (first, second) {
        (None, _) => second,
        (Some(_), None) => first,
        (Some(a), Some(b)) => if b.1.lt(a.1) || (b.1.equals(a.1) && b.0 < a.0) {
            second
        } else {
            first
        },
    }
}

impl BvhTree {
    /// The nearest meeting of the ray with a primitive below this node,
    /// where the ray meets the box of every node on the way down to it.
    pub open spec fn nearest(self, objects: Seq<Object>, ray: Ray) -> Option<(usize, Scalar)>
        decreases self,
    {
        match self {
            BvhTree::Node(aabb, left, right, _) => if aabb.crossing(ray).is_some() {
                nearer_of(left.nearest(objects, ray), right.nearest(objects, ray))
            } else {
                None
            },
            BvhTree::Leaf(aabb, members, _) => if aabb.crossing(ray).is_some() {
                leaf_nearest(objects, members@, ray)
            } else {
                None
            },
        }
    }

    /// The box of the node.
    pub open spec fn bounds(self) -> AABB {
        match self {
            BvhTree::Node(aabb, _, _, _) => aabb,
            BvhTree::Leaf(aabb, _, _) => aabb,
        }
    }

    /// The number of primitives that the node records.
    pub open spec fn count(self) -> nat {
        match self {
            BvhTree::Node(_, _, _, size) => size as nat,
            BvhTree::Leaf(_, _, size) => size as nat,
        }
    }

    /// The primitives in the leaves below the node, from left to right.
    pub open spec fn members(self) -> Seq<usize>
        decreases self,
    {
        match self {
            BvhTree::Node(_, left, right, _) => left.members() + right.members(),
            BvhTree::Leaf(_, objects, _) => objects@,
        }
    }

    /// The number of nodes on the longest way down to a leaf.
    pub open spec fn height(self) -> nat
        decreases self,
    {
        match self {
            BvhTree::Node(_, left, right, _) => 1 + if left.height() >= right.height() {
                left.height()
            } else {
                right.height()
            },
            BvhTree::Leaf(_, _, _) => 0,
        }
    }

    /// Whether this is the tree over the primitives `indices` of `boxes`:
    /// a leaf for at most one primitive, with the hull of its boxes;
    /// otherwise a node over the trees of the two halves, with the hull of
    /// their two boxes. Every node records the number of its primitives.
    pub open spec fn built_from(
        self,
        boxes: Seq<AABB>,
        indices: Seq<usize>,
        split_type: SplitType,
    ) -> bool
        decreases self,
    {
        match self {
            BvhTree::Leaf(aabb, objects, size) => {
                &&& indices.len() <= 1
                &&& objects@ == indices
                &&& size == indices.len()
                &&& aabb == AABB::hull(select(boxes, indices))
            },
            BvhTree::Node(aabb, left, right, size) => {
                &&& indices.len() >= 2
                &&& size == indices.len()
                &&& left.built_from(boxes, halves(boxes, indices, split_type).0, split_type)
                &&& right.built_from(boxes, halves(boxes, indices, split_type).1, split_type)
                &&& aabb == AABB::hull(seq![left.bounds(), right.bounds()])
            },
        }
    }

    /// Whether every node records the number of the primitives below it
    /// and no subtree of a node is empty.
    pub open spec fn sound(self) -> bool
        decreases self,
    {
        match self {
            BvhTree::Leaf(_, objects, size) => size == objects.len(),
            BvhTree::Node(_, left, right, size) => {
                &&& size == left.count() + right.count()
                &&& left.count() >= 1
                &&& right.count() >= 1
                &&& left.sound()
                &&& right.sound()
            },
        }
    }

    /// The areas of the boxes of all nodes, added from the root down: the
    /// area of a node's box, plus the total of the left subtree, plus the
    /// total of the right subtree.
    pub open spec fn total_area(self) -> Scalar
        decreases self,
    {
        match self {
            BvhTree::Leaf(aabb, _, _) => aabb.area(),
            BvhTree::Node(aabb, left, right, _) => aabb.area().plus(left.total_area()).plus(
                right.total_area(),
            ),
        }
    }

    /// A sound tree with a node is lower than it has primitives.
    pub proof fn lemma_height_bound(self)
        requires
            self.sound(),
        ensures
            self.height() <= self.count(),
            self.height() >= 1 ==> self.height() < self.count(),
        decreases self,
    {
        match self {
            BvhTree::Leaf(_, _, _) => {},
            BvhTree::Node(_, left, right, _) => {
                left.lemma_height_bound();
                right.lemma_height_bound();
            },
        }
    }

    /// A built tree is sound.
    pub proof fn lemma_built_sound(
        self,
        boxes: Seq<AABB>,
        indices: Seq<usize>,
        split_type: SplitType,
    )
        requires
            self.built_from(boxes, indices, split_type),
        ensures
            self.sound(),
            self.count() == indices.len(),
        decreases self,
    {
        match self {
            BvhTree::Leaf(_, _, _) => {},
            BvhTree::Node(_, left, right, _) => {
                let (l, r) = halves(boxes, indices, split_type);
                lemma_halves(boxes, indices, split_type);
                left.lemma_built_sound(boxes, l, split_type);
                right.lemma_built_sound(boxes, r, split_type);
            },
        }
    }

    /// A built tree holds every primitive it was built over exactly once,
    /// and records their number at its root; no leaf is lost or repeated.
    pub proof fn lemma_complete(
        self,
        boxes: Seq<AABB>,
        indices: Seq<usize>,
        split_type: SplitType,
    )
        requires
            self.built_from(boxes, indices, split_type),
        ensures
            self.count() == indices.len(),
            self.members().len() == indices.len(),
            self.members().to_multiset() == indices.to_multiset(),
        decreases self,
    {
        broadcast use vstd::seq_lib::group_to_multiset_ensures;

        match self {
            BvhTree::Leaf(_, _, _) => {},
            BvhTree::Node(_, left, right, _) => {
                let (l, r) = halves(boxes, indices, split_type);
                lemma_halves(boxes, indices, split_type);
                left.lemma_complete(boxes, l, split_type);
                right.lemma_complete(boxes, r, split_type);
                vstd::seq_lib::lemma_multiset_commutative(left.members(), right.members());
            },
        }
    }

    /// The box of every node of a built tree is valid and encloses the box
    /// of every primitive below the node that is not the empty box, as
    /// that box stands in its leaf.
    pub proof fn lemma_encloses(self, boxes: Seq<AABB>, indices: Seq<usize>, split_type: SplitType)
        requires
            self.built_from(boxes, indices, split_type),
            all_valid(boxes),
            in_range(indices, boxes.len() as int),
        ensures
            self.bounds().valid(),
            forall|m: usize| #[trigger]
                self.members().contains(m) ==> m < boxes.len() && (!boxes[m as int].vacant()
                    ==> self.bounds().encloses(boxes[m as int].alone()) && self.bounds().encloses(
                    boxes[m as int],
                )),
        decreases self,
    {
        match self {
            BvhTree::Leaf(_, _, _) => {
                let chosen = select(boxes, indices);
                AABB::lemma_hull_valid(chosen);
                assert forall|m: usize| #[trigger] self.members().contains(m) implies m
                    < boxes.len() && (!boxes[m as int].vacant() ==> self.bounds().encloses(
                    boxes[m as int].alone(),
                ) && self.bounds().encloses(boxes[m as int])) by {
                    let k = choose|k: int| 0 <= k < indices.len() && indices[k] == m;
                    assert(chosen =~= seq![boxes[m as int]]);
                    if !boxes[m as int].vacant() {
                        AABB::lemma_hull_encloses(chosen, 0);
                    }
                }
            },
            BvhTree::Node(_, left, right, _) => {
                let (l, r) = halves(boxes, indices, split_type);
                lemma_halves(boxes, indices, split_type);
                left.lemma_encloses(boxes, l, split_type);
                right.lemma_encloses(boxes, r, split_type);
                let both = seq![left.bounds(), right.bounds()];
                AABB::lemma_hull_valid(both);
                lemma_joined_contains(left.members(), right.members());
                assert forall|m: usize| #[trigger] self.members().contains(m) implies m
                    < boxes.len() && (!boxes[m as int].vacant() ==> self.bounds().encloses(
                    boxes[m as int].alone(),
                ) && self.bounds().encloses(boxes[m as int])) by {
                    let own = boxes[m as int];
                    if !own.vacant() {
                        assert(own.valid());
                        if left.members().contains(m) {
                            // A box that encloses one that is not empty is not empty.
                            assert(!left.bounds().vacant());
                            AABB::lemma_hull_encloses(both, 0);
                            self.bounds().lemma_encloses_transitive(left.bounds(), own.alone());
                            self.bounds().lemma_encloses_transitive(left.bounds(), own);
                        } else {
                            assert(right.members().contains(m));
                            assert(!right.bounds().vacant());
                            AABB::lemma_hull_encloses(both, 1);
                            self.bounds().lemma_encloses_transitive(right.bounds(), own.alone());
                            self.bounds().lemma_encloses_transitive(right.bounds(), own);
                        }
                    }
                }
            },
        }
    }

    /// The tree over the primitives `indices` of `boxes`.
    pub fn new(boxes: &Vec<AABB>, indices: Vec<usize>, split_type: SplitType) -> (tree: BvhTree)
        requires
            all_valid(boxes@),
            in_range(indices@, boxes.len() as int),
        ensures
            tree.built_from(boxes@, indices@, split_type),
            tree.bounds().valid(),
        decreases indices.len(),
    {
        let size = indices.len();
        // Always use a leaf size of 1.
        if size <= 1 {
            let mut aabbs: Vec<AABB> = Vec::new();
            if size == 1 {
                aabbs.push(boxes[indices[0]]);
            }
            assert(aabbs@ =~= select(boxes@, indices@));
            let aabb = AABB::union(aabbs);
            BvhTree::Leaf(aabb, indices, size)
        } else {
            let ghost (l, r) = halves(boxes@, indices@, split_type);
            proof {
                lemma_halves(boxes@, indices@, split_type);
            }
            let (left_objects, right_objects) = bvh_split(boxes, &indices, split_type);
            let (left_objects, right_objects) = if left_objects.len() == 0
                || right_objects.len() == 0 {
                bvh_split_naive(indices)
            } else {
                (left_objects, right_objects)
            };
            assert(left_objects@ == l);
            assert(right_objects@ == r);
            let left = BvhTree::new(boxes, left_objects, split_type);
            let right = BvhTree::new(boxes, right_objects, split_type);
            let aabb = AABB::union_pair(left.get_aabb(), right.get_aabb());
            BvhTree::Node(aabb, Box::new(left), Box::new(right), size)
        }
    }

    /// If `ray` meets some primitive below this node, returns its index
    /// and the parameter `t` of the nearest meeting; otherwise `None`. A
    /// subtree whose box the ray misses is not searched.
    pub fn get_closest_intersection(&self, objects: &Vec<Object>, ray: &Ray) -> (r: Option<
        (usize, Scalar),
    >)
        requires
            in_range(self.members(), objects.len() as int),
        ensures
            r == self.nearest(objects@, *ray),
            r matches Some((i, t)) ==> self.members().contains(i) && objects[i as int].hit(*ray)
                == Some(t) && !t.nan() && !t.less(Scalar { bits: ZERO_BITS }),
        decreases self,
    {
        proof {
            self.lemma_nearest_member(objects@, *ray);
            if self.nearest(objects@, *ray).is_some() {
                objects@[self.nearest(objects@, *ray).unwrap().0 as int].lemma_hit_is_ahead(*ray);
            }
        }
        match self {
            BvhTree::Node(aabb, left, right, _size) => {
                assert(in_range(left.members(), objects.len() as int)) by {
                    assert forall|k: int| 0 <= k < left.members().len() implies (
                    #[trigger] left.members()[k]) < objects.len() by {
                        assert(self.members()[k] == left.members()[k]);
                    }
                }
                assert(in_range(right.members(), objects.len() as int)) by {
                    assert forall|k: int| 0 <= k < right.members().len() implies (
                    #[trigger] right.members()[k]) < objects.len() by {
                        assert(self.members()[left.members().len() + k] == right.members()[k]);
                    }
                }
                if aabb.intersect(ray).is_some() {
                    let from_left = left.get_closest_intersection(objects, ray);
                    let from_right = right.get_closest_intersection(objects, ray);
                    nearer(from_left, from_right)
                } else {
                    None
                }
            },
            BvhTree::Leaf(aabb, members, _size) => {
                if aabb.intersect(ray).is_some() {
                    let mut best: Option<(usize, Scalar)> = None;
                    let mut k: usize = 0;
                    while k < members.len()
                        invariant
                            0 <= k <= members.len(),
                            in_range(members@, objects.len() as int),
                            best == leaf_nearest(objects@, members@.take(k as int), *ray),
                        decreases members.len() - k,
                    {
                        proof {
                            assert(members@.take(k + 1).drop_last() == members@.take(k as int));
                            assert(members@.take(k + 1).last() == members@[k as int]);
                        }
                        let index = members[k];
                        let found = match objects[index].get_intersection(ray) {
                            Some(t) => Some((index, t)),
                            None => None,
                        };
                        best = nearer(best, found);
                        k = k + 1;
                    }
                    proof {
                        assert(members@.take(members.len() as int) == members@);
                    }
                    best
                } else {
                    None
                }
            },
        }
    }

    /// The number of nodes on the longest way down to a leaf.
    pub fn get_depth(&self) -> (d: usize)
        requires
            self.sound(),
        ensures
            d == self.height(),
        decreases self,
    {
        proof {
            self.lemma_height_bound();
        }
        match self {
            BvhTree::Node(_, left, right, _) => {
                proof {
                    left.lemma_height_bound();
                    right.lemma_height_bound();
                }
                let l = left.get_depth();
                let r = right.get_depth();
                1 + if l >= r {
                    l
                } else {
                    r
                }
            },
            BvhTree::Leaf(_, _, _) => 0,
        }
    }

    /// Total surface area of the boxes of this tree.
    pub fn total_sa(&self) -> (a: Scalar)
        ensures
            a == self.total_area(),
        decreases self,
    {
        match self {
            BvhTree::Leaf(aabb, _objs, _size) => aabb.surface_area(),
            BvhTree::Node(aabb, left, right, _size) => {
                aabb.surface_area().add(left.total_sa()).add(right.total_sa())
            },
        }
    }

    /// The box of the node.
    pub fn get_aabb(&self) -> (aabb: AABB)
        ensures
            aabb == self.bounds(),
    {
        match self {
            BvhTree::Node(aabb, _, _, _) => *aabb,
            BvhTree::Leaf(aabb, _, _) => *aabb,
        }
    }

    /// The number of primitives that the node records.
    pub fn get_num_objects(&self) -> (n: usize)
        ensures
            n == self.count(),
    {
        match self {
            BvhTree::Node(_, _, _, size) => *size,
            BvhTree::Leaf(_, _, size) => *size,
        }
    }
}

/// Whether the meeting of the ray with primitive `i` at `t` does not come
/// after its meeting with primitive `j`, if it meets that.
pub open spec fn not_beyond(objects: Seq<Object>, i: usize, t: Scalar, j: usize, ray: Ray) -> bool {
    match objects[j as int].hit(ray) {
        Some(u) => t.less(u) || (t.same(u) && i <= j),
        None => true,
    }
}

/// Whether `found` is the nearest meeting of the ray with the candidates:
/// none, where the ray meets none of them; else one of the candidates with
/// its parameter, which is not negative, and before which no meeting with
/// another candidate comes.
pub open spec fn least_among(
    objects: Seq<Object>,
    candidates: Seq<usize>,
    ray: Ray,
    found: Option<(usize, Scalar)>,
) -> bool {
    match found {
        None => forall|j: usize| #[trigger]
            candidates.contains(j) ==> objects[j as int].hit(ray).is_none(),
        Some((i, t)) => {
            &&& candidates.contains(i)
            &&& objects[i as int].hit(ray) == Some(t)
            &&& !t.nan() && !t.less(Scalar { bits: ZERO_BITS })
            &&& forall|j: usize| #[trigger]
                candidates.contains(j) ==> not_beyond(objects, i, t, j, ray)
        },
    }
}

/// Whether none of the boxes is the empty box.
pub open spec fn none_vacant(boxes: Seq<AABB>) -> bool {
    forall|i: int| 0 <= i < boxes.len() ==> !(#[trigger] boxes[i]).vacant()
}

/// Whether the box test is monotone for a ray: the ray crosses every valid
/// box that encloses a valid box that it crosses.
pub open spec fn crossing_is_monotone(ray: Ray) -> bool {
    forall|outer: AABB, inner: AABB|
        #![trigger outer.encloses(inner)]
        outer.valid() && inner.valid() && outer.encloses(inner) && inner.crossing(ray).is_some()
            ==> outer.crossing(ray).is_some()
}

/// Whether the ray crosses the box of every primitive that it meets.
pub open spec fn hits_cross_boxes(objects: Seq<Object>, boxes: Seq<AABB>, ray: Ray) -> bool {
    forall|i: int|
        0 <= i < boxes.len() && (#[trigger] objects[i]).hit(ray).is_some() ==> boxes[i].crossing(
            ray,
        ).is_some()
}

/// Whether `found` is the nearest meeting of the ray with those of the
/// candidates whose box it crosses: none, where it meets none of those;
/// else one of the candidates with its parameter, which is not negative,
/// and before which no meeting with another such candidate comes.
pub open spec fn least_among_crossed(
    objects: Seq<Object>,
    boxes: Seq<AABB>,
    candidates: Seq<usize>,
    ray: Ray,
    found: Option<(usize, Scalar)>,
) -> bool {
    match found {
        None => forall|j: usize| #[trigger]
            candidates.contains(j) && boxes[j as int].crossing(ray).is_some()
                ==> objects[j as int].hit(ray).is_none(),
        Some((i, t)) => {
            &&& candidates.contains(i)
            &&& objects[i as int].hit(ray) == Some(t)
            &&& !t.nan() && !t.less(Scalar { bits: ZERO_BITS })
            &&& forall|j: usize| #[trigger]
                candidates.contains(j) && boxes[j as int].crossing(ray).is_some() ==> not_beyond(
                    objects,
                    i,
                    t,
                    j,
                    ray,
                )
        },
    }
}

/// The nearest meeting among some candidates is that among any candidates
/// that are the same primitives.
pub proof fn lemma_least_among_same(
    objects: Seq<Object>,
    a: Seq<usize>,
    b: Seq<usize>,
    ray: Ray,
    found: Option<(usize, Scalar)>,
)
    requires
        least_among(objects, a, ray, found),
        forall|i: usize| #[trigger] a.contains(i) ==> b.contains(i),
        forall|i: usize| #[trigger] b.contains(i) ==> a.contains(i),
    ensures
        least_among(objects, b, ray, found),
{
}

/// There is one nearest meeting of a ray with given candidates, and no
/// other.
pub proof fn lemma_least_is_unique(
    objects: Seq<Object>,
    candidates: Seq<usize>,
    ray: Ray,
    one: Option<(usize, Scalar)>,
    other: Option<(usize, Scalar)>,
)
    requires
        least_among(objects, candidates, ray, one),
        least_among(objects, candidates, ray, other),
    ensures
        one == other,
{
    if one.is_some() && other.is_some() {
        let (i, t) = one.unwrap();
        let (j, u) = other.unwrap();
        assert(not_beyond(objects, i, t, j, ray));
        assert(not_beyond(objects, j, u, i, ray));
    }
}

/// A list joined to another holds what either holds.
pub proof fn lemma_joined_contains(a: Seq<usize>, b: Seq<usize>)
    ensures
        forall|i: usize| #[trigger] (a + b).contains(i) <==> a.contains(i) || b.contains(i),
        forall|i: usize| #[trigger] a.contains(i) ==> (a + b).contains(i),
        forall|i: usize| #[trigger] b.contains(i) ==> (a + b).contains(i),
{
    assert forall|i: usize| #[trigger] a.contains(i) implies (a + b).contains(i) by {
        let k = choose|k: int| 0 <= k < a.len() && a[k] == i;
        assert((a + b)[k] == i);
    }
    assert forall|i: usize| #[trigger] b.contains(i) implies (a + b).contains(i) by {
        let k = choose|k: int| 0 <= k < b.len() && b[k] == i;
        assert((a + b)[a.len() + k] == i);
    }
    assert forall|i: usize| #[trigger] (a + b).contains(i) <==> a.contains(i) || b.contains(
        i,
    ) by {
        if (a + b).contains(i) {
            let k = choose|k: int| 0 <= k < (a + b).len() && (a + b)[k] == i;
            if k < a.len() {
                assert(a[k] == i);
            } else {
                assert(b[k - a.len()] == i);
            }
        }
    }
}

/// The nearer of the nearest meeting among some candidates and the nearest
/// meeting among others is the nearest meeting among all of them.
pub proof fn lemma_nearer_least(
    objects: Seq<Object>,
    a: Seq<usize>,
    b: Seq<usize>,
    ray: Ray,
    first: Option<(usize, Scalar)>,
    second: Option<(usize, Scalar)>,
)
    requires
        least_among(objects, a, ray, first),
        least_among(objects, b, ray, second),
    ensures
        least_among(objects, a + b, ray, nearer_of(first, second)),
{
    lemma_joined_contains(a, b);
    match nearer_of(first, second) {
        None => {},
        Some((i, t)) => {
            assert forall|j: usize| #[trigger] (a + b).contains(j) implies not_beyond(
                objects,
                i,
                t,
                j,
                ray,
            ) by {
                objects[j as int].lemma_hit_is_ahead(ray);
                if a.contains(j) {
                    if first.is_some() {
                        assert(not_beyond(objects, first.unwrap().0, first.unwrap().1, j, ray));
                    }
                } else {
                    assert(b.contains(j));
                    if second.is_some() {
                        assert(not_beyond(objects, second.unwrap().0, second.unwrap().1, j, ray));
                    }
                }
            }
        },
    }
}

/// The nearest meeting over a list of primitives is the nearest meeting
/// with them.
pub proof fn lemma_leaf_nearest_least(objects: Seq<Object>, members: Seq<usize>, ray: Ray)
    ensures
        least_among(objects, members, ray, leaf_nearest(objects, members, ray)),
    decreases members.len(),
{
    if members.len() > 0 {
        let rest = members.drop_last();
        let last = seq![members.last()];
        assert(rest + last == members);
        lemma_leaf_nearest_least(objects, rest, ray);
        let single = meeting(objects, members.last(), ray);
        assert(last[0] == members.last());
        assert(last.contains(members.last()));
        objects[members.last() as int].lemma_hit_is_ahead(ray);
        assert(least_among(objects, last, ray, single)) by {
            assert forall|j: usize| #[trigger] last.contains(j) implies j == members.last() by {
                let k = choose|k: int| 0 <= k < last.len() && last[k] == j;
            }
        }
        lemma_nearer_least(
            objects,
            rest,
            last,
            ray,
            leaf_nearest(objects, rest, ray),
            single,
        );
    }
}

impl BvhTree {
    /// The primitives that a query for the ray tests: those in the leaves
    /// that it reaches through boxes that the ray meets.
    pub open spec fn visible(self, ray: Ray) -> Seq<usize>
        decreases self,
    {
        match self {
            BvhTree::Node(aabb, left, right, _) => if aabb.crossing(ray).is_some() {
                left.visible(ray) + right.visible(ray)
            } else {
                Seq::empty()
            },
            BvhTree::Leaf(aabb, members, _) => if aabb.crossing(ray).is_some() {
                members@
            } else {
                Seq::empty()
            },
        }
    }

    /// Every tested primitive is a primitive of the tree.
    pub proof fn lemma_visible_members(self, ray: Ray)
        ensures
            forall|i: usize| #[trigger] self.visible(ray).contains(i) ==> self.members().contains(i),
        decreases self,
    {
        match self {
            BvhTree::Node(aabb, left, right, _) => {
                left.lemma_visible_members(ray);
                right.lemma_visible_members(ray);
                lemma_joined_contains(left.visible(ray), right.visible(ray));
                lemma_joined_contains(left.members(), right.members());
            },
            BvhTree::Leaf(_, _, _) => {},
        }
    }

    /// What a query returns is the nearest meeting of the ray with the
    /// primitives that it tests: its parameter is a number and not
    /// negative, and of equally near meetings it is the one with the
    /// earliest primitive.
    pub proof fn lemma_nearest_least(self, objects: Seq<Object>, ray: Ray)
        ensures
            least_among(objects, self.visible(ray), ray, self.nearest(objects, ray)),
        decreases self,
    {
        match self {
            BvhTree::Node(aabb, left, right, _) => {
                if aabb.crossing(ray).is_some() {
                    left.lemma_nearest_least(objects, ray);
                    right.lemma_nearest_least(objects, ray);
                    lemma_nearer_least(
                        objects,
                        left.visible(ray),
                        right.visible(ray),
                        ray,
                        left.nearest(objects, ray),
                        right.nearest(objects, ray),
                    );
                }
            },
            BvhTree::Leaf(aabb, members, _) => {
                if aabb.crossing(ray).is_some() {
                    lemma_leaf_nearest_least(objects, members@, ray);
                }
            },
        }
    }

    /// The primitives that a query tests are those whose own box the ray
    /// crosses, whatever the shape of the tree: every leaf holds one
    /// primitive in its own box, and a ray that crosses that box crosses
    /// the boxes of all the nodes above it.
    pub proof fn lemma_visible(
        self,
        boxes: Seq<AABB>,
        indices: Seq<usize>,
        split_type: SplitType,
        ray: Ray,
    )
        requires
            self.built_from(boxes, indices, split_type),
            all_valid(boxes),
            none_vacant(boxes),
            in_range(indices, boxes.len() as int),
            ray.steady(),
        ensures
            forall|i: usize| #[trigger]
                self.visible(ray).contains(i) <==> self.members().contains(i) && boxes[i as int].alone().crossing(
                    ray,
                ).is_some(),
        decreases self,
    {
        lemma_crossing_is_monotone(ray);
        self.lemma_encloses(boxes, indices, split_type);
        self.lemma_visible_members(ray);
        match self {
            BvhTree::Leaf(_, _, _) => {
                assert forall|i: usize| #[trigger]
                    self.visible(ray).contains(i) <==> self.members().contains(i)
                        && boxes[i as int].alone().crossing(ray).is_some() by {
                    if self.members().contains(i) {
                        let k = choose|k: int| 0 <= k < indices.len() && indices[k] == i;
                        assert(select(boxes, indices) =~= seq![boxes[i as int]]);
                    }
                }
            },
            BvhTree::Node(_, left, right, _) => {
                let (l, r) = halves(boxes, indices, split_type);
                lemma_halves(boxes, indices, split_type);
                left.lemma_visible(boxes, l, split_type, ray);
                right.lemma_visible(boxes, r, split_type, ray);
                lemma_joined_contains(left.members(), right.members());
                lemma_joined_contains(left.visible(ray), right.visible(ray));
                assert forall|i: usize| #[trigger]
                    self.visible(ray).contains(i) <==> self.members().contains(i)
                        && boxes[i as int].alone().crossing(ray).is_some() by {
                    if self.members().contains(i) && boxes[i as int].alone().crossing(
                        ray,
                    ).is_some() {
                        let own = boxes[i as int];
                        assert(!own.vacant() && own.valid());
                        AABB::lemma_hull_valid(seq![own]);
                        assert(self.bounds().encloses(own.alone()));
                        assert(self.bounds().crossing(ray).is_some());
                    }
                }
            },
        }
    }

    /// Two trees over the same primitives give the same answer for a ray,
    /// however each was split: the same primitive at the same parameter,
    /// or nothing. This holds of every ray whose origin and direction are
    /// finite, over boxes of which none is the empty box.
    pub proof fn lemma_same_nearest(
        self,
        other: BvhTree,
        objects: Seq<Object>,
        boxes: Seq<AABB>,
        indices: Seq<usize>,
        others: Seq<usize>,
        split_type: SplitType,
        other_type: SplitType,
        ray: Ray,
    )
        requires
            self.built_from(boxes, indices, split_type),
            other.built_from(boxes, others, other_type),
            indices.to_multiset() == others.to_multiset(),
            all_valid(boxes),
            none_vacant(boxes),
            in_range(indices, boxes.len() as int),
            in_range(others, boxes.len() as int),
            ray.steady(),
        ensures
            self.nearest(objects, ray) == other.nearest(objects, ray),
    {
        lemma_crossing_is_monotone(ray);
        self.lemma_visible(boxes, indices, split_type, ray);
        other.lemma_visible(boxes, others, other_type, ray);
        self.lemma_same_members(other, boxes, indices, others, split_type, other_type);
        self.lemma_nearest_least(objects, ray);
        other.lemma_nearest_least(objects, ray);
        lemma_least_among_same(
            objects,
            other.visible(ray),
            self.visible(ray),
            ray,
            other.nearest(objects, ray),
        );
        lemma_least_is_unique(
            objects,
            self.visible(ray),
            ray,
            self.nearest(objects, ray),
            other.nearest(objects, ray),
        );
    }

    /// Two trees built over the same primitives hold the same primitives.
    proof fn lemma_same_members(
        self,
        other: BvhTree,
        boxes: Seq<AABB>,
        indices: Seq<usize>,
        others: Seq<usize>,
        split_type: SplitType,
        other_type: SplitType,
    )
        requires
            self.built_from(boxes, indices, split_type),
            other.built_from(boxes, others, other_type),
            indices.to_multiset() == others.to_multiset(),
        ensures
            forall|i: usize| #[trigger] self.members().contains(i) ==> other.members().contains(i),
            forall|i: usize| #[trigger] other.members().contains(i) ==> self.members().contains(i),
    {
        broadcast use vstd::seq_lib::group_to_multiset_ensures;

        self.lemma_complete(boxes, indices, split_type);
        other.lemma_complete(boxes, others, other_type);
        assert forall|i: usize| #[trigger] self.members().contains(i) implies other.members().contains(
            i,
        ) by {
            assert(self.members().to_multiset().count(i) > 0);
            assert(other.members().to_multiset().count(i) > 0);
        }
        assert forall|i: usize| #[trigger] other.members().contains(i) implies self.members().contains(
            i,
        ) by {
            assert(other.members().to_multiset().count(i) > 0);
            assert(self.members().to_multiset().count(i) > 0);
        }
    }

    /// What a query returns is the nearest meeting of the ray with those
    /// primitives of the tree whose own box the ray crosses, for every ray
    /// whose origin and direction are finite.
    pub proof fn lemma_nearest_of_crossed(
        self,
        objects: Seq<Object>,
        boxes: Seq<AABB>,
        indices: Seq<usize>,
        split_type: SplitType,
        ray: Ray,
    )
        requires
            self.built_from(boxes, indices, split_type),
            all_valid(boxes),
            none_vacant(boxes),
            in_range(indices, boxes.len() as int),
            ray.steady(),
        ensures
            least_among_crossed(objects, boxes, self.members(), ray, self.nearest(objects, ray)),
    {
        lemma_crossing_is_monotone(ray);
        self.lemma_nearest_least(objects, ray);
        self.lemma_visible_members(ray);
        self.lemma_visible(boxes, indices, split_type, ray);
        self.lemma_encloses(boxes, indices, split_type);
        assert forall|j: usize| #[trigger]
            self.members().contains(j) && boxes[j as int].crossing(
                ray,
            ).is_some() implies self.visible(ray).contains(j) by {
            let own = boxes[j as int];
            assert(own.valid() && !own.vacant());
            AABB::lemma_hull_valid(seq![own]);
            AABB::lemma_hull_encloses(seq![own], 0);
            assert(own.alone().encloses(own));
        }
        match self.nearest(objects, ray) {
            None => {
                assert forall|j: usize| #[trigger]
                    self.members().contains(j) && boxes[j as int].crossing(
                        ray,
                    ).is_some() implies objects[j as int].hit(ray).is_none() by {
                    assert(self.visible(ray).contains(j));
                }
            },
            Some((i, t)) => {
                assert(self.visible(ray).contains(i));
                assert forall|j: usize| #[trigger]
                    self.members().contains(j) && boxes[j as int].crossing(
                        ray,
                    ).is_some() implies not_beyond(objects, i, t, j, ray) by {
                    assert(self.visible(ray).contains(j));
                }
            },
        }
    }

    /// What a query returns is the nearest meeting of the ray with all the
    /// primitives of the tree, as a search through every one of them would
    /// find it, if the origin and the direction of the ray are finite and
    /// it crosses the box of every primitive that it meets.
    pub proof fn lemma_nearest_of_all(
        self,
        objects: Seq<Object>,
        boxes: Seq<AABB>,
        indices: Seq<usize>,
        split_type: SplitType,
        ray: Ray,
    )
        requires
            self.built_from(boxes, indices, split_type),
            all_valid(boxes),
            none_vacant(boxes),
            in_range(indices, boxes.len() as int),
            ray.steady(),
            hits_cross_boxes(objects, boxes, ray),
        ensures
            least_among(objects, self.members(), ray, self.nearest(objects, ray)),
    {
        self.lemma_nearest_of_crossed(objects, boxes, indices, split_type, ray);
        self.lemma_encloses(boxes, indices, split_type);
        match self.nearest(objects, ray) {
            None => {
                assert forall|j: usize| #[trigger] self.members().contains(j) implies objects[j as int].hit(
                    ray,
                ).is_none() by {
                    if objects[j as int].hit(ray).is_some() {
                        assert(boxes[j as int].crossing(ray).is_some());
                    }
                }
            },
            Some((i, t)) => {
                assert forall|j: usize| #[trigger] self.members().contains(j) implies not_beyond(
                    objects,
                    i,
                    t,
                    j,
                    ray,
                ) by {
                    if objects[j as int].hit(ray).is_some() {
                        assert(boxes[j as int].crossing(ray).is_some());
                    }
                }
            },
        }
    }
}

/// The box around a primitive.
pub open spec fn object_box(object: Object) -> AABB {
    AABB { min: object.bounds().0, max: object.bounds().1 }
}

/// The boxes around the primitives, in order.
pub open spec fn boxes_of(objects: Seq<Object>) -> Seq<AABB> {
    Seq::new(objects.len(), |i: int| object_box(objects[i]))
}

/// Whether the box around every primitive is valid.
pub open spec fn all_boxes_valid(objects: Seq<Object>) -> bool {
    all_valid(boxes_of(objects))
}

/// The indices from 0 up to `n`.
pub open spec fn iota(n: nat) -> Seq<usize> {
    Seq::new(n, |i: int| i as usize)
}

/// Why a hierarchy could not be built.
#[derive(Clone, Copy, Debug, PartialEq, Eq, Structural)]
pub enum BuildError {
    /// The box of the primitive with this index has a low corner above its
    /// high corner, or a coordinate that is not a number.
    InvalidBounds(usize),
}

/// The boxes of the primitives, or the index of the first primitive whose
/// box is not valid.
fn bounding_boxes(objects: &Vec<Object>) -> (r: Result<Vec<AABB>, usize>)
    ensures
        match r {
            Ok(boxes) => boxes@ == boxes_of(objects@) && all_valid(boxes@),
            Err(i) => i < objects.len() && !object_box(objects[i as int]).valid() && forall|j: int|
                0 <= j < i ==> (#[trigger] object_box(objects[j])).valid(),
        },
{
    let mut boxes: Vec<AABB> = Vec::new();
    let mut i: usize = 0;
    while i < objects.len()
        invariant
            0 <= i <= objects.len(),
            boxes.len() == i,
            forall|j: int| 0 <= j < i ==> boxes[j] == object_box(objects[j]),
            forall|j: int| 0 <= j < i ==> (#[trigger] object_box(objects[j])).valid(),
        decreases objects.len() - i,
    {
        let (min, max) = objects[i].get_bounding_box();
        match AABB::checked(min, max) {
            Some(aabb) => {
                boxes.push(aabb);
            },
            None => {
                return Err(i);
            },
        }
        i = i + 1;
    }
    assert(boxes@ =~= boxes_of(objects@));
    Ok(boxes)
}

/// The indices from 0 up to `n`.
fn all_indices(n: usize) -> (r: Vec<usize>)
    ensures
        r@ == iota(n as nat),
{
    let mut r: Vec<usize> = Vec::new();
    let mut i: usize = 0;
    while i < n
        invariant
            0 <= i <= n,
            r.len() == i,
            forall|j: int| 0 <= j < i ==> r[j] == j,
        decreases n - i,
    {
        r.push(i);
        i = i + 1;
    }
    assert(r@ =~= iota(n as nat));
    r
}

/// Bounding volume hierarchy over the primitives of a scene.
#[derive(Debug)]
pub struct Bvh {
    objects: Vec<Object>,
    bvh_tree: BvhTree,
    split_type: SplitType,
}

impl Bvh {
    /// Whether the tree is the one built over the primitives, all of which
    /// have valid boxes. Every hierarchy that exists is well formed.
    #[verifier::type_invariant]
    pub closed spec fn well_formed(self) -> bool {
        &&& all_valid(boxes_of(self.objects@))
        &&& self.bvh_tree.built_from(
            boxes_of(self.objects@),
            iota(self.objects.len() as nat),
            self.split_type,
        )
    }

    /// The primitives of the scene.
    pub closed spec fn objects(self) -> Seq<Object> {
        self.objects@
    }

    /// The tree over the primitives.
    pub closed spec fn tree(self) -> BvhTree {
        self.bvh_tree
    }

    /// Whether `error` says why no hierarchy can be built over the
    /// primitives: it names the first of them whose box is not valid.
    pub open spec fn refused(objects: Seq<Object>, error: BuildError) -> bool {
        match error {
            BuildError::InvalidBounds(i) => {
                &&& i < objects.len()
                &&& !object_box(objects[i as int]).valid()
                &&& forall|j: int| 0 <= j < i ==> (#[trigger] object_box(objects[j])).valid()
            },
        }
    }

    /// The nearest meeting of the ray with a primitive, as the tree finds
    /// it.
    pub open spec fn nearest(self, ray: Ray) -> Option<(usize, Scalar)> {
        self.tree().nearest(self.objects(), ray)
    }

    /// The hierarchy over the primitives, split by the surface area
    /// heuristic.
    pub fn new(objects: Vec<Object>) -> (bvh: Bvh)
        requires
            all_valid(boxes_of(objects@)),
        ensures
            bvh.objects() == objects@,
            bvh.tree().built_from(
                boxes_of(objects@),
                iota(objects.len() as nat),
                SplitType::SAH,
            ),
            bvh.tree().count() == objects.len(),
            bvh.tree().members().to_multiset() == iota(objects.len() as nat).to_multiset(),
    {
        Bvh::with_split(objects, SplitType::SAH)
    }

    /// The hierarchy over the primitives, split by the given policy.
    pub fn with_split(objects: Vec<Object>, split_type: SplitType) -> (bvh: Bvh)
        requires
            all_valid(boxes_of(objects@)),
        ensures
            bvh.objects() == objects@,
            bvh.tree().built_from(boxes_of(objects@), iota(objects.len() as nat), split_type),
            bvh.tree().count() == objects.len(),
            bvh.tree().members().to_multiset() == iota(objects.len() as nat).to_multiset(),
    {
        let boxes = match bounding_boxes(&objects) {
            Ok(boxes) => boxes,
            Err(i) => {
                assert(boxes_of(objects@)[i as int].valid());
                vstd::pervasive::unreached()
            },
        };
        let indices = all_indices(objects.len());
        let bvh_tree = BvhTree::new(&boxes, indices, split_type);
        proof {
            bvh_tree.lemma_complete(boxes@, iota(objects.len() as nat), split_type);
        }
        Bvh { objects, bvh_tree, split_type }
    }

    /// Whether a hierarchy can be built over the primitives: every
    /// primitive has a valid box. The reason, if not.
    pub fn check_bounds(objects: &Vec<Object>) -> (r: Result<(), BuildError>)
        ensures
            r.is_ok() <==> all_boxes_valid(objects@),
            match r {
                Ok(_) => true,
                Err(error) => Bvh::refused(objects@, error),
            },
    {
        match bounding_boxes(objects) {
            Ok(_) => Ok(()),
            Err(i) => {
                assert(boxes_of(objects@)[i as int] == object_box(objects[i as int]));
                Err(BuildError::InvalidBounds(i))
            },
        }
    }

    /// The hierarchy over the primitives, if one can be built over them;
    /// the reason, if not.
    pub fn checked(objects: Vec<Object>, split_type: SplitType) -> (r: Result<Bvh, BuildError>)
        ensures
            r.is_ok() <==> all_boxes_valid(objects@),
            match r {
                Ok(bvh) => {
                    &&& bvh.objects() == objects@
                    &&& bvh.tree().built_from(
                        boxes_of(objects@),
                        iota(objects.len() as nat),
                        split_type,
                    )
                    &&& bvh.tree().count() == objects.len()
                    &&& bvh.tree().members().to_multiset() == iota(
                        objects.len() as nat,
                    ).to_multiset()
                },
                Err(error) => Bvh::refused(objects@, error),
            },
    {
        match Bvh::check_bounds(&objects) {
            Ok(_) => Ok(
                match split_type {
                    SplitType::SAH => Bvh::new(objects),
                    SplitType::Basic => Bvh::with_split(objects, SplitType::Basic),
                },
            ),
            Err(error) => Err(error),
        }
    }

    /// The number of primitives in the hierarchy.
    pub fn get_num_objects(&self) -> (n: usize)
        ensures
            n == self.objects().len(),
            n == self.tree().count(),
    {
        proof {
            use_type_invariant(self);
            self.bvh_tree.lemma_complete(
                boxes_of(self.objects@),
                iota(self.objects.len() as nat),
                self.split_type,
            );
        }
        self.bvh_tree.get_num_objects()
    }

    /// The number of nodes on the longest way from the root to a leaf.
    pub fn get_depth(&self) -> (d: usize)
        ensures
            d == self.tree().height(),
    {
        proof {
            use_type_invariant(self);
            self.bvh_tree.lemma_built_sound(
                boxes_of(self.objects@),
                iota(self.objects.len() as nat),
                self.split_type,
            );
        }
        self.bvh_tree.get_depth()
    }

    /// Total surface area of the boxes of the hierarchy.
    pub fn total_sa(&self) -> (a: Scalar)
        ensures
            a == self.tree().total_area(),
    {
        self.bvh_tree.total_sa()
    }

    /// The primitive with the given index.
    pub fn object(&self, index: usize) -> (o: &Object)
        requires
            index < self.objects().len(),
        ensures
            *o == self.objects()[index as int],
    {
        &self.objects[index]
    }

    /// If `ray` meets some primitive, returns the index of the nearest one
    /// and the parameter `t` of the meeting. Otherwise returns `None`.
    pub fn closest_index(&self, ray: &Ray) -> (r: Option<(usize, Scalar)>)
        ensures
            r == self.nearest(*ray),
            r matches Some((i, t)) ==> i < self.objects().len() && self.objects()[i as int].hit(
                *ray,
            ) == Some(t) && !t.nan() && !t.less(Scalar { bits: ZERO_BITS }),
    {
        proof {
            use_type_invariant(self);
            self.lemma_members_in_range();
        }
        let r = self.bvh_tree.get_closest_intersection(&self.objects, ray);
        proof {
            if r.is_some() {
                self.lemma_found_in_range(*ray);
            }
        }
        r
    }

    /// If `ray` intersects some object, returns `Some((object, t))` such
    /// that the intersection point is at `ray.point_at(t)` on `object`.
    /// Otherwise returns `None`.
    pub fn get_closest_intersection(&self, ray: &Ray) -> (r: Option<(&Object, Scalar)>)
        ensures
            match r {
                Some((object, t)) => self.nearest(*ray).is_some() && self.nearest(*ray).unwrap().1
                    == t && *object == self.objects()[self.nearest(*ray).unwrap().0 as int]
                    && object.hit(*ray) == Some(t) && !t.nan() && !t.less(
                    Scalar { bits: ZERO_BITS },
                ),
                None => self.nearest(*ray).is_none(),
            },
    {
        match self.closest_index(ray) {
            Some((index, t)) => Some((&self.objects[index], t)),
            None => None,
        }
    }

    /// Every primitive of the tree is a primitive of the scene.
    proof fn lemma_members_in_range(self)
        requires
            self.well_formed(),
        ensures
            in_range(self.bvh_tree.members(), self.objects.len() as int),
            self.bvh_tree.members().to_multiset() == iota(self.objects.len() as nat).to_multiset(),
    {
        broadcast use vstd::seq_lib::group_to_multiset_ensures;

        let n = self.objects.len() as nat;
        self.bvh_tree.lemma_complete(boxes_of(self.objects@), iota(n), self.split_type);
        assert forall|k: int| 0 <= k < self.bvh_tree.members().len() implies (
        #[trigger] self.bvh_tree.members()[k]) < self.objects.len() by {
            let i = self.bvh_tree.members()[k];
            assert(self.bvh_tree.members().contains(i));
            assert(iota(n).to_multiset().count(i) > 0);
            assert(iota(n).contains(i));
        }
    }

    /// What a query finds is a primitive of the scene, met by the ray at
    /// the parameter found.
    pub proof fn lemma_nearest_in_range(self, ray: Ray)
        requires
            self.well_formed(),
        ensures
            match self.nearest(ray) {
                Some((i, t)) => i < self.objects().len() && self.objects()[i as int].hit(ray)
                    == Some(t),
                None => true,
            },
    {
        if self.nearest(ray).is_some() {
            self.lemma_found_in_range(ray);
            self.bvh_tree.lemma_nearest_member(self.objects@, ray);
        }
    }

    /// What a query finds is a primitive of the scene.
    proof fn lemma_found_in_range(self, ray: Ray)
        requires
            self.well_formed(),
            self.bvh_tree.nearest(self.objects@, ray).is_some(),
        ensures
            self.bvh_tree.nearest(self.objects@, ray).unwrap().0 < self.objects.len(),
    {
        self.lemma_members_in_range();
        self.bvh_tree.lemma_nearest_member(self.objects@, ray);
        let i = self.bvh_tree.nearest(self.objects@, ray).unwrap().0;
        let k = choose|k: int|
            0 <= k < self.bvh_tree.members().len() && self.bvh_tree.members()[k] == i;
        assert(self.bvh_tree.members()[k] < self.objects.len());
    }
}

impl BvhTree {
    /// What a query finds is a primitive of the tree, with the parameter
    /// at which the ray meets it.
    pub proof fn lemma_nearest_member(self, objects: Seq<Object>, ray: Ray)
        ensures
            match self.nearest(objects, ray) {
                Some((i, t)) => self.members().contains(i) && objects[i as int].hit(ray) == Some(t),
                None => true,
            },
        decreases self,
    {
        match self {
            BvhTree::Node(_, left, right, _) => {
                left.lemma_nearest_member(objects, ray);
                right.lemma_nearest_member(objects, ray);
                lemma_joined_contains(left.members(), right.members());
            },
            BvhTree::Leaf(_, members, _) => {
                lemma_leaf_nearest_member(objects, members@, ray);
            },
        }
    }
}

/// The nearest meeting over a list of primitives is with one of them, at
/// the parameter at which the ray meets it.
pub proof fn lemma_leaf_nearest_member(objects: Seq<Object>, members: Seq<usize>, ray: Ray)
    ensures
        match leaf_nearest(objects, members, ray) {
            Some((i, t)) => members.contains(i) && objects[i as int].hit(ray) == Some(t),
            None => true,
        },
    decreases members.len(),
{
    if members.len() > 0 {
        lemma_leaf_nearest_member(objects, members.drop_last(), ray);
        assert(members.drop_last() + seq![members.last()] == members);
        lemma_joined_contains(members.drop_last(), seq![members.last()]);
        assert(seq![members.last()][0] == members.last());
    }
}

impl Bvh {
    /// Whether none of the boxes of the primitives is the empty box.
    pub open spec fn plain(self) -> bool {
        none_vacant(boxes_of(self.objects()))
    }

    /// Whether none of the boxes of the primitives is the empty box.
    pub fn is_plain(&self) -> (r: bool)
        ensures
            r == self.plain(),
    {
        let mut i: usize = 0;
        while i < self.objects.len()
            invariant
                0 <= i <= self.objects.len(),
                forall|j: int| 0 <= j < i ==> !(#[trigger] object_box(self.objects[j])).vacant(),
            decreases self.objects.len() - i,
        {
            let (min, max) = self.objects[i].get_bounding_box();
            let own = AABB { min, max };
            assert(own == boxes_of(self.objects@)[i as int]);
            if own.is_empty() {
                return false;
            }
            i = i + 1;
        }
        assert forall|j: int| 0 <= j < boxes_of(self.objects@).len() implies !(
        #[trigger] boxes_of(self.objects@)[j]).vacant() by {
            assert(boxes_of(self.objects@)[j] == object_box(self.objects[j]));
        }
        true
    }

    /// What a query returns is the nearest meeting of the ray with those
    /// primitives of the scene whose own box the ray crosses: nothing
    /// where it meets none of them, else a primitive and the parameter at
    /// which the ray meets it, which is not negative and before which it
    /// meets no other of them; of equally near primitives the earliest.
    /// This holds of every ray whose origin and direction are finite.
    pub proof fn lemma_nearest_of_crossed(self, ray: Ray)
        requires
            self.well_formed(),
            self.plain(),
            ray.steady(),
        ensures
            least_among_crossed(
                self.objects(),
                boxes_of(self.objects()),
                iota(self.objects().len()),
                ray,
                self.nearest(ray),
            ),
    {
        let n = self.objects.len() as nat;
        let boxes = boxes_of(self.objects@);
        let members = self.bvh_tree.members();
        self.lemma_members_are_all();
        assert(in_range(iota(n), boxes.len() as int));
        self.bvh_tree.lemma_nearest_of_crossed(self.objects@, boxes, iota(n), self.split_type, ray);
    }

    /// What a query returns is the nearest meeting of the ray with all the
    /// primitives of the scene, as a search through every one of them
    /// would find it: nothing where the ray meets none of them, else a
    /// primitive and the parameter at which the ray meets it, which is not
    /// negative and before which it meets no other; of equally near
    /// primitives the earliest. This holds of every ray whose origin and
    /// direction are finite and which crosses the box of each primitive
    /// that it meets.
    pub proof fn lemma_nearest_of_scene(self, ray: Ray)
        requires
            self.well_formed(),
            self.plain(),
            ray.steady(),
            hits_cross_boxes(self.objects(), boxes_of(self.objects()), ray),
        ensures
            least_among(self.objects(), iota(self.objects().len()), ray, self.nearest(ray)),
    {
        lemma_crossing_is_monotone(ray);
        let n = self.objects.len() as nat;
        let boxes = boxes_of(self.objects@);
        let members = self.bvh_tree.members();
        self.lemma_members_are_all();
        assert(in_range(iota(n), boxes.len() as int));
        self.bvh_tree.lemma_nearest_of_all(self.objects@, boxes, iota(n), self.split_type, ray);
        lemma_least_among_same(self.objects@, members, iota(n), ray, self.nearest(ray));
    }

    /// What a query returns is a primitive of the scene that the ray meets
    /// at the parameter returned, which is a number and not negative.
    pub proof fn lemma_nearest_is_ahead(self, ray: Ray)
        requires
            self.well_formed(),
        ensures
            self.nearest(ray) matches Some((i, t)) ==> i < self.objects().len()
                && self.objects()[i as int].hit(ray) == Some(t) && !t.nan() && !t.less(
                Scalar { bits: ZERO_BITS },
            ),
    {
        self.lemma_nearest_in_range(ray);
        if self.nearest(ray).is_some() {
            self.objects()[self.nearest(ray).unwrap().0 as int].lemma_hit_is_ahead(ray);
        }
    }

    /// The primitives of the tree are the primitives of the scene.
    proof fn lemma_members_are_all(self)
        requires
            self.well_formed(),
        ensures
            forall|i: usize| #[trigger]
                self.bvh_tree.members().contains(i) ==> iota(self.objects.len() as nat).contains(i),
            forall|i: usize| #[trigger]
                iota(self.objects.len() as nat).contains(i) ==> self.bvh_tree.members().contains(i),
    {
        broadcast use vstd::seq_lib::group_to_multiset_ensures;

        self.lemma_members_in_range();
        let n = self.objects.len() as nat;
        let members = self.bvh_tree.members();
        assert forall|i: usize| #[trigger] members.contains(i) implies iota(n).contains(i) by {
            assert(iota(n).to_multiset().count(i) > 0);
        }
        assert forall|i: usize| #[trigger] iota(n).contains(i) implies members.contains(i) by {
            assert(members.to_multiset().count(i) > 0);
        }
    }

    /// Two hierarchies over the same primitives give the same answer for a
    /// ray, whatever policy split each: the same primitive at the same
    /// parameter, or nothing. This holds of every ray whose origin and
    /// direction are finite, where no primitive has the empty box: the
    /// union leaves that box out, so that the boxes above such a primitive
    /// need not hold it.
    pub proof fn lemma_split_policy_is_irrelevant(self, other: Bvh, ray: Ray)
        requires
            self.well_formed(),
            other.well_formed(),
            self.objects() == other.objects(),
            self.plain(),
            ray.steady(),
        ensures
            self.nearest(ray) == other.nearest(ray),
    {
        lemma_crossing_is_monotone(ray);
        let n = self.objects.len() as nat;
        let boxes = boxes_of(self.objects@);
        assert(in_range(iota(n), boxes.len() as int));
        self.bvh_tree.lemma_same_nearest(
            other.bvh_tree,
            self.objects@,
            boxes,
            iota(n),
            iota(n),
            self.split_type,
            other.split_type,
            ray,
        );
    }
}

} // verus!
