use vstd::prelude::*;
use crate::bounds::{Axis, Bounds3, is_union, encloses, min_int, max_int, coord64, maximum_extent_spec, empty_box, union_spec, surface_area_spec, lemma_union_is, coord, faces_attained, attains, face, lemma_attains_push, lemma_attains_union, union_all};
use crate::vector::Vector3;
use std::sync::Arc;

verus! {

/// How the primitives of a node are split between its two children.
#[derive(Copy, Clone, Debug)]
pub enum SplitMethod {
    Middle,
    EqualCounts,
    Sah,
}

/// A node of the BVH as it is built: an interior node with two children and
/// the axis it was split on, or a leaf with a range of ordered primitives.
pub enum BuildNode {
    Interior { bounds: Bounds3<i32>, children: (Box<BuildNode>, Box<BuildNode>), split_axis: Axis },
    Leaf { bounds: Bounds3<i32>, first_prim_offset: usize, num_prims: usize },
}

/// What a node of the flattened BVH holds besides its bounds.
#[derive(Clone, Copy, Debug)]
pub enum LNodeData {
    Interior { second_child_offset: usize, axis: Axis },
    Leaf { primitives_offset: usize, num_prims: usize },
}

/// A node of the flattened BVH.
#[derive(Clone, Copy, Debug)]
pub struct LNode {
    pub bounds: Bounds3<i32>,
    pub data: LNodeData,
}

/// The primitives and bounds that fall in one bucket of the SAH split.
#[derive(Clone, Copy, Debug)]
pub struct BucketInfo {
    pub count: usize,
    pub bounds: Bounds3<i32>,
}

impl BuildNode {
    /// The bounds stored in the node.
    pub open spec fn bounds_of(self) -> Bounds3<i32> {
        match self {
            BuildNode::Interior { bounds, .. } => bounds,
            BuildNode::Leaf { bounds, .. } => bounds,
        }
    }

    /// The number of nodes of the tree rooted here.
    pub open spec fn node_count(self) -> nat
        decreases self,
    {
        match self {
            BuildNode::Interior { children, .. } => 1 + children.0.node_count()
                + children.1.node_count(),
            BuildNode::Leaf { .. } => 1,
        }
    }

    /// An interior node over `child1` and `child2`, split along `axis`, whose
    /// bounds are the union of the children's.
    pub fn interior(axis: Axis, child1: Box<BuildNode>, child2: Box<BuildNode>) -> (r: BuildNode)
        ensures
            r matches BuildNode::Interior { bounds, children, split_axis } && split_axis == axis
                && children.0 == child1 && children.1 == child2 && is_union(
                child1.bounds_of(),
                child2.bounds_of(),
                bounds,
            ),
    {
        let bbox = Bounds3::<i32>::union(child1.bounds(), child2.bounds());
        BuildNode::Interior { bounds: bbox, children: (child1, child2), split_axis: axis }
    }

    /// A leaf over `num_prims` ordered primitives from `first_prim_offset`.
    pub fn leaf(first_prim_offset: usize, num_prims: usize, bbox: Bounds3<i32>) -> (r: BuildNode)
        ensures
            r == (BuildNode::Leaf { bounds: bbox, first_prim_offset, num_prims }),
    {
        BuildNode::Leaf { bounds: bbox, first_prim_offset, num_prims }
    }

    /// The bounds of the node.
    pub fn bounds(&self) -> (r: &Bounds3<i32>)
        ensures
            *r == self.bounds_of(),
    {
        match self {
            BuildNode::Interior { bounds, .. } => bounds,
            BuildNode::Leaf { bounds, .. } => bounds,
        }
    }
}

} // verus!

verus! {

/// `node` is laid out depth first in `nodes` from `offset`: the node itself at
/// `offset`, its first child right after it, and its second child at the
/// offset the node records.
pub open spec fn flat_ok(nodes: Seq<LNode>, offset: int, node: BuildNode) -> bool
    decreases node,
{
    &&& 0 <= offset
    &&& offset + node.node_count() <= nodes.len()
    &&& match node {
        BuildNode::Leaf { bounds, first_prim_offset, num_prims } => nodes[offset] == LNode {
            bounds,
            data: LNodeData::Leaf { primitives_offset: first_prim_offset, num_prims },
        },
        BuildNode::Interior { bounds, children, split_axis } => {
            &&& nodes[offset] == LNode {
                bounds,
                data: LNodeData::Interior {
                    second_child_offset: (offset + 1 + children.0.node_count()) as usize,
                    axis: split_axis,
                },
            }
            &&& flat_ok(nodes, offset + 1, *children.0)
            &&& flat_ok(nodes, offset + 1 + children.0.node_count(), *children.1)
        },
    }
}

proof fn lemma_node_count_pos(node: BuildNode)
    ensures
        node.node_count() >= 1,
    decreases node,
{
    if let BuildNode::Interior { children, .. } = node {
        lemma_node_count_pos(*children.0);
        lemma_node_count_pos(*children.1);
    }
}

/// The layout of a node depends only on the entries its subtree occupies.
proof fn lemma_flat_ok_frame(a: Seq<LNode>, b: Seq<LNode>, offset: int, node: BuildNode)
    requires
        flat_ok(a, offset, node),
        offset + node.node_count() <= b.len(),
        forall|k: int| offset <= k < offset + node.node_count() ==> #[trigger] b[k] == a[k],
    ensures
        flat_ok(b, offset, node),
    decreases node,
{
    lemma_node_count_pos(node);
    if let BuildNode::Interior { children, .. } = node {
        lemma_node_count_pos(*children.0);
        lemma_node_count_pos(*children.1);
        lemma_flat_ok_frame(a, b, offset + 1, *children.0);
        lemma_flat_ok_frame(a, b, offset + 1 + children.0.node_count(), *children.1);
    }
}

fn flatten_nodes(node: &BuildNode, nodes: &mut Vec<LNode>) -> (r: usize)
    requires
        old(nodes).len() + node.node_count() <= usize::MAX,
    ensures
        r == old(nodes).len(),
        final(nodes).len() == old(nodes).len() + node.node_count(),
        forall|k: int| 0 <= k < old(nodes).len() ==> #[trigger] final(nodes)@[k] == old(nodes)@[k],
        flat_ok(final(nodes)@, r as int, *node),
    decreases node,
{
    proof {
        lemma_node_count_pos(*node);
    }
    let offset = nodes.len();
    match node {
        BuildNode::Leaf { first_prim_offset, num_prims, .. } => {
            let linear_node = LNode {
                bounds: *node.bounds(),
                data: LNodeData::Leaf { num_prims: *num_prims, primitives_offset: *first_prim_offset },
            };
            nodes.push(linear_node);
        },
        BuildNode::Interior { split_axis, children, .. } => {
            proof {
                lemma_node_count_pos(*children.0);
                lemma_node_count_pos(*children.1);
            }
            let linear_node = LNode {
                bounds: *node.bounds(),
                data: LNodeData::Interior { axis: *split_axis, second_child_offset: 0 },
            };
            nodes.push(linear_node);
            let first = flatten_nodes(&*children.0, nodes);
            let ghost after_first = nodes@;
            let second_offset = flatten_nodes(&*children.1, nodes);
            let ghost after_second = nodes@;
            nodes.set(
                offset,
                LNode {
                    bounds: *node.bounds(),
                    data: LNodeData::Interior { axis: *split_axis, second_child_offset: second_offset },
                },
            );
            proof {
                lemma_flat_ok_frame(after_first, nodes@, first as int, *children.0);
                lemma_flat_ok_frame(after_second, nodes@, second_offset as int, *children.1);
            }
        },
    }
    offset
}

} // verus!

verus! {

/// Something that can be placed in a BVH: it has bounds in world space.
pub trait Primitive {
    /// The bounds of the primitive in world space.
    spec fn world_bounds_spec(&self) -> Bounds3<i32>;

    /// The bounds of the primitive in world space.
    fn world_bounds(&self) -> (r: Bounds3<i32>)
        ensures
            r == self.world_bounds_spec(),
    ;
}

/// What the build reads of a primitive: its number among the primitives, the
/// centre of its bounds and the bounds themselves. The centre is kept doubled
/// (`p_min + p_max`) so that it stays an integer.
#[derive(Clone, Copy, Debug)]
pub struct PrimitiveInfo {
    pub prim_number: usize,
    pub centroid: Vector3<i64>,
    pub bounds: Bounds3<i32>,
}

/// The doubled centre `p_min + p_max` of the box `b`.
pub open spec fn doubled_center(b: Bounds3<i32>) -> Vector3<i64> {
    Vector3 {
        x: (b.p_min.x + b.p_max.x) as i64,
        y: (b.p_min.y + b.p_max.y) as i64,
        z: (b.p_min.z + b.p_max.z) as i64,
    }
}

impl PrimitiveInfo {
    /// The information on primitive number `pn` with bounds `bb`.
    pub fn new(pn: usize, bb: Bounds3<i32>) -> (r: PrimitiveInfo)
        ensures
            r.prim_number == pn,
            r.bounds == bb,
            r.centroid == doubled_center(bb),
    {
        PrimitiveInfo {
            prim_number: pn,
            centroid: Vector3::new(
                bb.p_min.x as i64 + bb.p_max.x as i64,
                bb.p_min.y as i64 + bb.p_max.y as i64,
                bb.p_min.z as i64 + bb.p_max.z as i64,
            ),
            bounds: bb,
        }
    }
}

/// The bounds of the doubled centres of the primitives in `s`, grown one
/// point at a time from the empty box.
pub open spec fn centroid_bounds_of(s: Seq<PrimitiveInfo>) -> Bounds3<i64>
    decreases s.len(),
{
    if s.len() == 0 {
        Bounds3 {
            p_min: Vector3 { x: i64::MAX, y: i64::MAX, z: i64::MAX },
            p_max: Vector3 { x: i64::MIN, y: i64::MIN, z: i64::MIN },
        }
    } else {
        let b = centroid_bounds_of(s.drop_last());
        let p = s.last().centroid;
        Bounds3 {
            p_min: Vector3 {
                x: min_int(b.p_min.x as int, p.x as int) as i64,
                y: min_int(b.p_min.y as int, p.y as int) as i64,
                z: min_int(b.p_min.z as int, p.z as int) as i64,
            },
            p_max: Vector3 {
                x: max_int(b.p_max.x as int, p.x as int) as i64,
                y: max_int(b.p_max.y as int, p.y as int) as i64,
                z: max_int(b.p_max.z as int, p.z as int) as i64,
            },
        }
    }
}

/// The split of `s` along the axis of largest centroid extent has nothing to
/// split: all doubled centres agree on that axis.
pub open spec fn centroids_coincide(s: Seq<PrimitiveInfo>) -> bool {
    let cb = centroid_bounds_of(s);
    let d = maximum_extent_spec(cb).index();
    coord64(cb.p_min, d) == coord64(cb.p_max, d)
}

impl BuildNode {
    /// The number of primitives in the leaves of the tree rooted here.
    pub open spec fn prim_count(self) -> int
        decreases self,
    {
        match self {
            BuildNode::Interior { children, .. } => children.0.prim_count()
                + children.1.prim_count(),
            BuildNode::Leaf { num_prims, .. } => num_prims as int,
        }
    }

    /// The leaves of the tree rooted here cover the ordered primitives from
    /// `lo` on without gaps or overlap, each leaf at least one primitive; the
    /// second child's range comes before the first child's.
    pub open spec fn covers(self, lo: int) -> bool
        decreases self,
    {
        match self {
            BuildNode::Interior { children, .. } => children.1.covers(lo) && children.0.covers(
                lo + children.1.prim_count(),
            ),
            BuildNode::Leaf { first_prim_offset, num_prims, .. } => first_prim_offset == lo
                && num_prims >= 1,
        }
    }
}

} // verus!

verus! {

/// Every doubled centre of `s` lies in `centroid_bounds_of(s)`, and on each
/// axis some centre lies on the lower face and some on the upper face.
proof fn lemma_centroid_bounds(s: Seq<PrimitiveInfo>, d: int)
    requires
        s.len() > 0,
        0 <= d < 3,
    ensures
        forall|k: int|
            0 <= k < s.len() ==> coord64(centroid_bounds_of(s).p_min, d) <= #[trigger] coord64(
                s[k].centroid,
                d,
            ) <= coord64(centroid_bounds_of(s).p_max, d),
        exists|k: int|
            0 <= k < s.len() && #[trigger] coord64(s[k].centroid, d) == coord64(
                centroid_bounds_of(s).p_min,
                d,
            ),
        exists|k: int|
            0 <= k < s.len() && #[trigger] coord64(s[k].centroid, d) == coord64(
                centroid_bounds_of(s).p_max,
                d,
            ),
    decreases s.len(),
{
    let cb = centroid_bounds_of(s);
    let last = s.len() - 1;
    if s.len() == 1 {
        assert(s.drop_last().len() == 0);
        let e = centroid_bounds_of(s.drop_last());
        assert(e.p_min.x == i64::MAX && e.p_min.y == i64::MAX && e.p_min.z == i64::MAX);
        assert(e.p_max.x == i64::MIN && e.p_max.y == i64::MIN && e.p_max.z == i64::MIN);
        assert(s.last() == s[0]);
        assert(coord64(s[0].centroid, d) == coord64(cb.p_min, d));
        assert(coord64(s[0].centroid, d) == coord64(cb.p_max, d));
    } else {
        let t = s.drop_last();
        lemma_centroid_bounds(t, d);
        let tb = centroid_bounds_of(t);
        assert forall|k: int| 0 <= k < s.len() implies coord64(cb.p_min, d) <= #[trigger] coord64(
            s[k].centroid,
            d,
        ) <= coord64(cb.p_max, d) by {
            if k < last {
                assert(s[k] == t[k]);
                assert(coord64(t[k].centroid, d) >= coord64(tb.p_min, d));
            }
        }
        if coord64(s[last].centroid, d) <= coord64(tb.p_min, d) {
            assert(coord64(s[last].centroid, d) == coord64(cb.p_min, d));
        } else {
            let k = choose|k: int|
                0 <= k < t.len() && #[trigger] coord64(t[k].centroid, d) == coord64(tb.p_min, d);
            assert(s[k] == t[k]);
            assert(coord64(s[k].centroid, d) == coord64(cb.p_min, d));
        }
        if coord64(s[last].centroid, d) >= coord64(tb.p_max, d) {
            assert(coord64(s[last].centroid, d) == coord64(cb.p_max, d));
        } else {
            let k = choose|k: int|
                0 <= k < t.len() && #[trigger] coord64(t[k].centroid, d) == coord64(tb.p_max, d);
            assert(s[k] == t[k]);
            assert(coord64(s[k].centroid, d) == coord64(cb.p_max, d));
        }
    }
}

/// The bounds of the primitives `s`.
pub open spec fn bounds_seq(s: Seq<PrimitiveInfo>) -> Seq<Bounds3<i32>> {
    Seq::new(s.len(), |k: int| s[k].bounds)
}

/// The union of the bounds of the primitives `info[start..end]`.
fn range_bounds(info: &Vec<PrimitiveInfo>, start: usize, end: usize) -> (r: Bounds3<i32>)
    requires
        start <= end <= info.len(),
    ensures
        forall|k: int| start <= k < end ==> encloses(r, #[trigger] info@[k].bounds),
        start < end ==> faces_attained(r, bounds_seq(info@.subrange(start as int, end as int))),
        r == union_all(bounds_seq(info@.subrange(start as int, end as int))),
{
    let mut b = Bounds3::<i32>::new();
    let mut k = start;
    proof {
        assert(bounds_seq(info@.subrange(start as int, start as int)).len() == 0);
    }
    while k < end
        invariant
            start <= k <= end <= info.len(),
            forall|j: int| start <= j < k ==> encloses(b, #[trigger] info@[j].bounds),
            k > start ==> faces_attained(b, bounds_seq(info@.subrange(start as int, k as int))),
            k == start ==> b == crate::bounds::empty_box(),
            b == union_all(bounds_seq(info@.subrange(start as int, k as int))),
        decreases end - k,
    {
        let nb = Bounds3::<i32>::union(&b, &info[k].bounds);
        proof {
            crate::bounds::lemma_union_is(b, info@[k as int].bounds, nb);
            let grown = bounds_seq(info@.subrange(start as int, k + 1));
            assert(grown.drop_last() =~= bounds_seq(info@.subrange(start as int, k as int)));
            assert(grown.last() == info@[k as int].bounds);
            lemma_attains_push(b, info@[k as int].bounds, nb, bounds_seq(info@.subrange(start as int, k as int)));
            assert(bounds_seq(info@.subrange(start as int, k + 1)) =~= bounds_seq(
                info@.subrange(start as int, k as int),
            ).push(info@[k as int].bounds));
            crate::bounds::lemma_union_encloses(b, info@[k as int].bounds, nb);
            assert forall|j: int| start <= j < k implies encloses(nb, #[trigger] info@[j].bounds) by {
                crate::bounds::lemma_encloses_trans(nb, b, info@[j].bounds);
            }
        }
        b = nb;
        k += 1;
    }
    b
}

/// The bounds of the doubled centres of `info[start..end]`.
fn centroid_bounds(info: &Vec<PrimitiveInfo>, start: usize, end: usize) -> (r: Bounds3<i64>)
    requires
        start <= end <= info.len(),
    ensures
        r == centroid_bounds_of(info@.subrange(start as int, end as int)),
{
    let mut b = Bounds3::<i64>::new();
    let mut k = start;
    proof {
        assert(info@.subrange(start as int, start as int).len() == 0);
    }
    while k < end
        invariant
            start <= k <= end <= info.len(),
            b == centroid_bounds_of(info@.subrange(start as int, k as int)),
        decreases end - k,
    {
        let ghost s = info@.subrange(start as int, k as int + 1);
        assert(s.drop_last() =~= info@.subrange(start as int, k as int));
        assert(s.last() == info@[k as int]);
        let nb = Bounds3::<i64>::union_point(&b, &info[k].centroid);
        proof {
            let e = centroid_bounds_of(s);
            assert(crate::bounds::coord64(nb.p_min, 0) == crate::bounds::coord64(e.p_min, 0));
            assert(crate::bounds::coord64(nb.p_min, 1) == crate::bounds::coord64(e.p_min, 1));
            assert(crate::bounds::coord64(nb.p_min, 2) == crate::bounds::coord64(e.p_min, 2));
            assert(crate::bounds::coord64(nb.p_max, 0) == crate::bounds::coord64(e.p_max, 0));
            assert(crate::bounds::coord64(nb.p_max, 1) == crate::bounds::coord64(e.p_max, 1));
            assert(crate::bounds::coord64(nb.p_max, 2) == crate::bounds::coord64(e.p_max, 2));
        }
        b = nb;
        k += 1;
    }
    b
}

} // verus!

verus! {

/// `Arc::clone`: another pointer to the same value (std documents that it
/// creates another pointer to the same allocation).
#[verifier::external_body]
pub(crate) fn arc_clone<T>(a: &Arc<T>) -> (r: Arc<T>)
    ensures
        r == *a,
{
    Arc::clone(a)
}

/// The primitives that the infos `s` stand for, in order.
pub open spec fn prims_of<P>(primitives: Seq<Arc<P>>, s: Seq<PrimitiveInfo>) -> Seq<Arc<P>> {
    s.map_values(|pi: PrimitiveInfo| primitives[pi.prim_number as int])
}

/// The test by which a split sends a primitive to the first part.
#[derive(Clone, Copy, Debug)]
pub enum SplitTest {
    /// The doubled centre on axis `dim` lies below the middle of the centroid
    /// bounds, whose doubled lower and upper faces add up to `faces`.
    BelowMiddle { dim: usize, faces: i64 },
    /// The SAH bucket of the doubled centre on axis `dim`, between `lo` and
    /// `hi`, is at most `split`.
    LowBuckets { dim: usize, lo: i64, hi: i64, split: usize },
}

/// Number of buckets of the SAH split.
pub const N_BUCKETS: usize = 12;

/// The SAH bucket of a doubled centre coordinate `c` within `[lo, hi]`: the
/// position of `c` scaled to `0..=N_BUCKETS` and rounded down, the top value
/// falling in the last bucket.
pub open spec fn bucket_spec(c: int, lo: int, hi: int) -> int {
    let b = (N_BUCKETS as int * (c - lo)) / (hi - lo);
    if b >= N_BUCKETS as int {
        N_BUCKETS as int - 1
    } else {
        b
    }
}

/// Every centre within `[lo, hi]` falls in one of the `N_BUCKETS` buckets,
/// the lowest centre in the first bucket and the highest in the last, and a
/// higher centre never falls in a lower bucket.
pub proof fn law_buckets_ordered(c1: int, c2: int, lo: int, hi: int)
    requires
        lo < hi,
        lo <= c1 <= c2 <= hi,
    ensures
        0 <= bucket_spec(c1, lo, hi) <= bucket_spec(c2, lo, hi) < N_BUCKETS,
        bucket_spec(lo, lo, hi) == 0,
        bucket_spec(hi, lo, hi) == N_BUCKETS - 1,
{
    let n = N_BUCKETS as int;
    vstd::arithmetic::div_mod::lemma_div_is_ordered(n * (c1 - lo), n * (c2 - lo), hi - lo);
    vstd::arithmetic::div_mod::lemma_div_pos_is_pos(n * (c1 - lo), hi - lo);
    assert(n * (c1 - lo) <= n * (c2 - lo)) by (nonlinear_arith)
        requires
            c1 <= c2,
            n == 12,
    ;
    assert(0 <= n * (c1 - lo)) by (nonlinear_arith)
        requires
            lo <= c1,
            n == 12,
    ;
    assert((n * (lo - lo)) / (hi - lo) == 0);
    vstd::arithmetic::div_mod::lemma_div_by_multiple(n, hi - lo);
    assert(n * (hi - lo) == (hi - lo) * n) by (nonlinear_arith);
}

/// Whether `test` sends the primitive `pi` to the first part.
pub open spec fn goes_first_spec(pi: PrimitiveInfo, test: SplitTest) -> bool {
    match test {
        SplitTest::BelowMiddle { dim, faces } => 2 * coord64(pi.centroid, dim as int) < faces,
        SplitTest::LowBuckets { dim, lo, hi, split } => bucket_spec(
            coord64(pi.centroid, dim as int),
            lo as int,
            hi as int,
        ) <= split,
    }
}

/// The tests a split may run: their coordinates are in range and the SAH
/// buckets have a non-empty extent holding the centre.
pub open spec fn test_ok(test: SplitTest, s: Seq<PrimitiveInfo>) -> bool {
    match test {
        SplitTest::BelowMiddle { dim, .. } => dim < 3 && forall|k: int|
            0 <= k < s.len() ==> -0x2_0000_0000 <= #[trigger] coord64(s[k].centroid, dim as int)
                <= 0x2_0000_0000,
        SplitTest::LowBuckets { dim, lo, hi, .. } => dim < 3 && -0x2_0000_0000 <= lo < hi
            <= 0x2_0000_0000 && forall|k: int|
            0 <= k < s.len() ==> lo <= #[trigger] coord64(s[k].centroid, dim as int) <= hi,
    }
}

/// The SAH bucket of the doubled centre coordinate `c` within `[lo, hi]`.
fn bucket(c: i64, lo: i64, hi: i64) -> (r: usize)
    requires
        -0x2_0000_0000 <= lo < hi <= 0x2_0000_0000,
        lo <= c <= hi,
    ensures
        r == bucket_spec(c as int, lo as int, hi as int),
        r < N_BUCKETS,
{
    let num: i64 = 12 * (c - lo);
    let den: i64 = hi - lo;
    let mut b = num / den;
    assert(0 <= b <= 12) by (nonlinear_arith)
        requires
            0 <= num <= 12 * den,
            den > 0,
            b == num / den,
    ;
    if b >= 12 {
        b = 11;
    }
    b as usize
}

/// Whether `test` sends the primitive `pi` to the first part.
fn goes_first(pi: &PrimitiveInfo, test: &SplitTest) -> (r: bool)
    requires
        match *test {
            SplitTest::BelowMiddle { dim, .. } => dim < 3 && -0x2_0000_0000 <= coord64(
                pi.centroid,
                dim as int,
            ) <= 0x2_0000_0000,
            SplitTest::LowBuckets { dim, lo, hi, .. } => dim < 3 && -0x2_0000_0000 <= lo < hi
                <= 0x2_0000_0000 && lo <= coord64(pi.centroid, dim as int) <= hi,
        },
    ensures
        r == goes_first_spec(*pi, *test),
{
    match test {
        SplitTest::BelowMiddle { dim, faces } => 2 * pi.centroid.get(*dim) < *faces,
        SplitTest::LowBuckets { dim, lo, hi, split } => bucket(pi.centroid.get(*dim), *lo, *hi)
            <= *split,
    }
}

/// `itertools::partition` on `info[start..end]` with the test `test`: the
/// contract claims what its source shows, that the elements are reordered so
/// that those the test accepts come first, and that the count of those is
/// returned.
#[verifier::external_body]
fn partition_range(info: &mut Vec<PrimitiveInfo>, start: usize, end: usize, test: SplitTest) -> (r: usize)
    requires
        start <= end <= old(info).len(),
        test_ok(test, old(info)@.subrange(start as int, end as int)),
    ensures
        r <= end - start,
        final(info).len() == old(info).len(),
        forall|k: int|
            0 <= k < old(info).len() && !(start <= k < end) ==> #[trigger] final(info)@[k] == old(info)@[k],
        final(info)@.subrange(start as int, end as int).to_multiset() == old(info)@.subrange(
            start as int,
            end as int,
        ).to_multiset(),
        forall|k: int| start <= k < start + r ==> goes_first_spec(#[trigger] final(info)@[k], test),
        forall|k: int| start + r <= k < end ==> !goes_first_spec(#[trigger] final(info)@[k], test),
{
    itertools::partition(info[start..end].iter_mut(), |pi| goes_first(pi, &test))
}

/// The doubled centre coordinate of `pi` on axis `dim`.
fn centroid_key(pi: &PrimitiveInfo, dim: usize) -> (r: i64)
    requires
        dim < 3,
    ensures
        r == coord64(pi.centroid, dim as int),
{
    pi.centroid.get(dim)
}

/// `<[T]>::sort_by_key` on `info[start..end]`, keyed by the doubled centre on
/// axis `dim`: the contract claims what std documents, that the range is
/// reordered into nondecreasing order of the key.
#[verifier::external_body]
fn sort_range_by_centroid(info: &mut Vec<PrimitiveInfo>, start: usize, end: usize, dim: usize)
    requires
        start <= end <= old(info).len(),
        dim < 3,
    ensures
        final(info).len() == old(info).len(),
        forall|k: int|
            0 <= k < old(info).len() && !(start <= k < end) ==> #[trigger] final(info)@[k] == old(info)@[k],
        final(info)@.subrange(start as int, end as int).to_multiset() == old(info)@.subrange(
            start as int,
            end as int,
        ).to_multiset(),
        forall|j: int, k: int|
            start <= j <= k < end ==> coord64(#[trigger] final(info)@[j].centroid, dim as int)
                <= coord64(#[trigger] final(info)@[k].centroid, dim as int),
{
    info[start..end].sort_by_key(|pi| centroid_key(pi, dim))
}

} // verus!

verus! {

/// A leaf over `info[start..end]`: appends their primitives to the ordered
/// primitives and covers them.
fn make_leaf<P>(
    primitives: &[Arc<P>],
    info: &Vec<PrimitiveInfo>,
    start: usize,
    end: usize,
    bounds: Bounds3<i32>,
    ordered_prims: &mut Vec<Arc<P>>,
) -> (r: BuildNode)
    requires
        start < end <= info.len(),
        forall|k: int| start <= k < end ==> (#[trigger] info@[k]).prim_number < primitives@.len(),
    ensures
        final(ordered_prims)@ == old(ordered_prims)@ + prims_of(
            primitives@,
            info@.subrange(start as int, end as int),
        ),
        r == (BuildNode::Leaf {
            bounds,
            first_prim_offset: old(ordered_prims).len(),
            num_prims: (end - start) as usize,
        }),
{
    let first_prim_offset = ordered_prims.len();
    let mut k = start;
    while k < end
        invariant
            start <= k <= end <= info.len(),
            forall|j: int| start <= j < end ==> (#[trigger] info@[j]).prim_number < primitives@.len(),
            ordered_prims@ == old(ordered_prims)@ + prims_of(
                primitives@,
                info@.subrange(start as int, k as int),
            ),
        decreases end - k,
    {
        let prim_num = info[k].prim_number;
        ordered_prims.push(arc_clone(&primitives[prim_num]));
        proof {
            assert(info@.subrange(start as int, k + 1) =~= info@.subrange(start as int, k as int).push(
                info@[k as int],
            ));
            assert(prims_of(primitives@, info@.subrange(start as int, k + 1)) =~= prims_of(
                primitives@,
                info@.subrange(start as int, k as int),
            ).push(primitives@[prim_num as int]));
        }
        k += 1;
    }
    BuildNode::leaf(first_prim_offset, end - start, bounds)
}

} // verus!

verus! {

/// `pi` is a sound description of one of `n_prims` primitives.
pub open spec fn info_ok(pi: PrimitiveInfo, n_prims: int) -> bool {
    pi.prim_number < n_prims && pi.centroid == doubled_center(pi.bounds)
}

/// Every description in `s` is sound.
pub open spec fn all_ok(s: Seq<PrimitiveInfo>, n_prims: int) -> bool {
    forall|k: int| 0 <= k < s.len() ==> info_ok(#[trigger] s[k], n_prims)
}

/// Reordering keeps every description sound.
proof fn lemma_multiset_keeps_ok(a: Seq<PrimitiveInfo>, b: Seq<PrimitiveInfo>, n_prims: int)
    requires
        a.to_multiset() == b.to_multiset(),
        all_ok(a, n_prims),
    ensures
        all_ok(b, n_prims),
{
    broadcast use vstd::seq_lib::group_to_multiset_ensures;

    assert forall|k: int| 0 <= k < b.len() implies info_ok(#[trigger] b[k], n_prims) by {
        assert(b.contains(b[k]));
        assert(b.to_multiset().contains(b[k]));
        assert(a.to_multiset().contains(b[k]));
        assert(a.contains(b[k]));
        let j = choose|j: int| 0 <= j < a.len() && a[j] == b[k];
        assert(info_ok(a[j], n_prims));
    }
}

/// An element of `a` is found again in any reordering `b` of it.
proof fn lemma_multiset_finds(a: Seq<PrimitiveInfo>, b: Seq<PrimitiveInfo>, j: int) -> (k: int)
    requires
        a.to_multiset() == b.to_multiset(),
        0 <= j < a.len(),
    ensures
        0 <= k < b.len(),
        b[k] == a[j],
{
    broadcast use vstd::seq_lib::group_to_multiset_ensures;

    assert(a.contains(a[j]));
    assert(b.to_multiset().contains(a[j]));
    assert(b.contains(a[j]));
    choose|k: int| 0 <= k < b.len() && b[k] == a[j]
}

} // verus!

verus! {

/// Whether the SAH cost `1 + a / s` is below `1 + b / s`, compared as
/// `f32` division orders them (a zero `s` gives infinities or NaN).
pub open spec fn cost_below(a: int, b: int, s: int) -> bool {
    if s > 0 {
        a < b
    } else if s < 0 {
        a > b
    } else {
        a < 0 && b > 0
    }
}

/// Whether the SAH cost `1 + a / s` is below the cost `n` of a leaf, compared
/// as `f32` division orders them.
pub open spec fn below_leaf_cost(a: int, s: int, n: int) -> bool {
    if s > 0 {
        s + a < n * s
    } else if s < 0 {
        s + a > n * s
    } else {
        a < 0
    }
}

fn cost_below_exec(a: i128, b: i128, s: i128) -> (r: bool)
    ensures
        r == cost_below(a as int, b as int, s as int),
{
    if s > 0 {
        a < b
    } else if s < 0 {
        a > b
    } else {
        a < 0 && b > 0
    }
}

fn below_leaf_cost_exec(a: i128, s: i128, n: u64) -> (r: bool)
    requires
        -0x1_0000_0000_0000_0000_0000_0000_0000 <= a <= 0x1_0000_0000_0000_0000_0000_0000_0000,
        -0x8_0000_0000_0000_0000 <= s <= 0x8_0000_0000_0000_0000,
        n <= u32::MAX,
    ensures
        r == below_leaf_cost(a as int, s as int, n as int),
{
    let ns = scaled(n, s);
    if s > 0 {
        s + a < ns
    } else if s < 0 {
        s + a > ns
    } else {
        a < 0
    }
}

/// `count * area` for the counts and areas of the SAH split.
fn scaled(count: u64, area: i128) -> (r: i128)
    requires
        count <= 0x10_0000_0000,
        -0x8_0000_0000_0000_0000 <= area <= 0x8_0000_0000_0000_0000,
    ensures
        r == count * area,
        -0x80_0000_0000_0000_0000_0000_0000 <= r <= 0x80_0000_0000_0000_0000_0000_0000,
{
    assert(-0x80_0000_0000_0000_0000_0000_0000 <= count * area <= 0x80_0000_0000_0000_0000_0000_0000)
        by (nonlinear_arith)
        requires
            0 <= count <= 0x10_0000_0000,
            -0x8_0000_0000_0000_0000 <= area <= 0x8_0000_0000_0000_0000,
    ;
    count as i128 * area
}

proof fn lemma_surface_area_bound(b: Bounds3<i32>)
    ensures
        -0x8_0000_0000_0000_0000 <= crate::bounds::surface_area_spec(b) <= 0x8_0000_0000_0000_0000,
{
    let dx = crate::bounds::coord(b.p_max, 0) - crate::bounds::coord(b.p_min, 0);
    let dy = crate::bounds::coord(b.p_max, 1) - crate::bounds::coord(b.p_min, 1);
    let dz = crate::bounds::coord(b.p_max, 2) - crate::bounds::coord(b.p_min, 2);
    assert(-0x1_0000_0000_0000_0000 <= dx * dy <= 0x1_0000_0000_0000_0000) by (nonlinear_arith)
        requires
            -0x1_0000_0000 <= dx <= 0x1_0000_0000,
            -0x1_0000_0000 <= dy <= 0x1_0000_0000,
    ;
    assert(-0x1_0000_0000_0000_0000 <= dx * dz <= 0x1_0000_0000_0000_0000) by (nonlinear_arith)
        requires
            -0x1_0000_0000 <= dx <= 0x1_0000_0000,
            -0x1_0000_0000 <= dz <= 0x1_0000_0000,
    ;
    assert(-0x1_0000_0000_0000_0000 <= dy * dz <= 0x1_0000_0000_0000_0000) by (nonlinear_arith)
        requires
            -0x1_0000_0000 <= dy <= 0x1_0000_0000,
            -0x1_0000_0000 <= dz <= 0x1_0000_0000,
    ;
}

/// The SAH bucket of `pi` along `dim` within `[lo, hi]`.
pub open spec fn bucket_of(pi: PrimitiveInfo, dim: usize, lo: i64, hi: i64) -> int {
    bucket_spec(coord64(pi.centroid, dim as int), lo as int, hi as int)
}

/// The number of primitives of `s` in bucket `b`.
pub open spec fn bucket_count(s: Seq<PrimitiveInfo>, dim: usize, lo: i64, hi: i64, b: int) -> nat
    decreases s.len(),
{
    if s.len() == 0 {
        0
    } else {
        bucket_count(s.drop_last(), dim, lo, hi, b) + if bucket_of(s.last(), dim, lo, hi) == b {
            1nat
        } else {
            0nat
        }
    }
}

/// The union of the bounds of the primitives of `s` in bucket `b`, grown in
/// the order of `s` from the empty box.
pub open spec fn bucket_bounds(s: Seq<PrimitiveInfo>, dim: usize, lo: i64, hi: i64, b: int) -> Bounds3<i32>
    decreases s.len(),
{
    if s.len() == 0 {
        empty_box()
    } else {
        let prev = bucket_bounds(s.drop_last(), dim, lo, hi, b);
        if bucket_of(s.last(), dim, lo, hi) == b {
            union_spec(prev, s.last().bounds)
        } else {
            prev
        }
    }
}

/// The `N_BUCKETS` buckets of `s`: their counts and bounds.
pub open spec fn buckets_of(s: Seq<PrimitiveInfo>, dim: usize, lo: i64, hi: i64) -> Seq<BucketInfo> {
    Seq::new(
        N_BUCKETS as nat,
        |b: int| BucketInfo { count: bucket_count(s, dim, lo, hi, b) as usize, bounds: bucket_bounds(s, dim, lo, hi, b) },
    )
}

/// The number of primitives in buckets `from..to`.
pub open spec fn range_count(bk: Seq<BucketInfo>, from: int, to: int) -> int
    decreases to - from,
{
    if to <= from {
        0
    } else {
        range_count(bk, from, to - 1) + bk[to - 1].count
    }
}

/// The union of the bounds of buckets `from..to`.
pub open spec fn range_union(bk: Seq<BucketInfo>, from: int, to: int) -> Bounds3<i32>
    decreases to - from,
{
    if to <= from {
        empty_box()
    } else {
        union_spec(range_union(bk, from, to - 1), bk[to - 1].bounds)
    }
}

/// The SAH cost of splitting after bucket `i`, scaled by the area of the
/// node: each side's count times its surface area.
pub open spec fn split_cost(bk: Seq<BucketInfo>, i: int) -> int {
    range_count(bk, 0, i + 1) * surface_area_spec(range_union(bk, 0, i + 1)) + range_count(
        bk,
        i + 1,
        N_BUCKETS as int,
    ) * surface_area_spec(range_union(bk, i + 1, N_BUCKETS as int))
}

/// The first of the splits after buckets `0..i` whose cost no later one is
/// below.
pub open spec fn cheapest_split(bk: Seq<BucketInfo>, area: int, i: int) -> int
    decreases i,
{
    if i <= 1 {
        0
    } else {
        let prev = cheapest_split(bk, area, i - 1);
        if cost_below(split_cost(bk, i - 1), split_cost(bk, prev), area) {
            i - 1
        } else {
            prev
        }
    }
}

/// Whether the SAH splits the primitives `s` of a node with surface area
/// `area`: when they are more than a leaf may hold, or when the cheapest
/// split costs less than a leaf.
pub open spec fn sah_splits(s: Seq<PrimitiveInfo>, dim: usize, lo: i64, hi: i64, area: int, max_prims: int) -> bool {
    let bk = buckets_of(s, dim, lo, hi);
    s.len() > max_prims || below_leaf_cost(
        split_cost(bk, cheapest_split(bk, area, N_BUCKETS - 1)),
        area,
        s.len() as int,
    )
}

/// The test that partitions the primitives `s` at the cheapest SAH split.
pub open spec fn sah_test(s: Seq<PrimitiveInfo>, dim: usize, lo: i64, hi: i64, area: int) -> SplitTest {
    SplitTest::LowBuckets {
        dim,
        lo,
        hi,
        split: cheapest_split(buckets_of(s, dim, lo, hi), area, N_BUCKETS - 1) as usize,
    }
}

/// Among the splits after buckets `0..i`, the one `cheapest_split` picks
/// costs no more than any other, and less than every split before it.
pub proof fn law_cheapest_split_is_cheapest(bk: Seq<BucketInfo>, area: int, i: int)
    requires
        area > 0,
        i >= 1,
    ensures
        0 <= cheapest_split(bk, area, i) < i,
        forall|j: int| 0 <= j < i ==> split_cost(bk, cheapest_split(bk, area, i)) <= #[trigger] split_cost(bk, j),
        forall|j: int|
            0 <= j < cheapest_split(bk, area, i) ==> split_cost(bk, cheapest_split(bk, area, i)) < #[trigger] split_cost(
                bk,
                j,
            ),
    decreases i,
{
    if i > 1 {
        law_cheapest_split_is_cheapest(bk, area, i - 1);
    }
}

/// The SAH splits a node of positive area when it holds more primitives than
/// a leaf may, and a node that a leaf may hold exactly when splitting it
/// after some bucket costs less than a leaf: when the split's cost relative
/// to the node, `1 + cost / area`, is below the number of primitives.
pub proof fn law_sah_splits_when_cheaper(
    s: Seq<PrimitiveInfo>,
    dim: usize,
    lo: i64,
    hi: i64,
    area: int,
    max_prims: int,
)
    requires
        area > 0,
    ensures
        s.len() > max_prims ==> sah_splits(s, dim, lo, hi, area, max_prims),
        s.len() <= max_prims ==> (sah_splits(s, dim, lo, hi, area, max_prims) <==> exists|j: int|
            0 <= j < N_BUCKETS - 1 && #[trigger] split_cost(buckets_of(s, dim, lo, hi), j) + area < s.len()
                * area),
{
    let bk = buckets_of(s, dim, lo, hi);
    let c = cheapest_split(bk, area, N_BUCKETS - 1);
    law_cheapest_split_is_cheapest(bk, area, N_BUCKETS - 1);
    if s.len() <= max_prims {
        if sah_splits(s, dim, lo, hi, area, max_prims) {
            assert(split_cost(bk, c) + area < s.len() * area);
        }
        if exists|j: int| 0 <= j < N_BUCKETS - 1 && #[trigger] split_cost(bk, j) + area < s.len() * area {
            let j = choose|j: int| 0 <= j < N_BUCKETS - 1 && #[trigger] split_cost(bk, j) + area < s.len() * area;
            assert(split_cost(bk, c) <= split_cost(bk, j));
        }
    }
}

proof fn lemma_bucket_count_le(s: Seq<PrimitiveInfo>, dim: usize, lo: i64, hi: i64, b: int)
    ensures
        bucket_count(s, dim, lo, hi, b) <= s.len(),
    decreases s.len(),
{
    if s.len() > 0 {
        lemma_bucket_count_le(s.drop_last(), dim, lo, hi, b);
    }
}

/// The SAH split of `info[start..end]` along `dim`, whose doubled centres
/// span `[lo, hi]`: the primitives are sorted into `N_BUCKETS` buckets, the
/// cheapest split between buckets is found, and either the primitives are
/// partitioned at it (`Some` of the split index) or, when a leaf is cheaper
/// and small enough, nothing moves (`None`).
fn sah_split(
    info: &mut Vec<PrimitiveInfo>,
    start: usize,
    end: usize,
    dim: usize,
    lo: i64,
    hi: i64,
    bounds: &Bounds3<i32>,
    max_prims_per_node: usize,
) -> (r: Option<usize>)
    requires
        start + 2 < end <= old(info).len(),
        end - start <= u32::MAX,
        dim < 3,
        -0x2_0000_0000 <= lo < hi <= 0x2_0000_0000,
        forall|k: int|
            start <= k < end ==> lo <= #[trigger] coord64(old(info)@[k].centroid, dim as int) <= hi,
        exists|k: int| start <= k < end && #[trigger] coord64(old(info)@[k].centroid, dim as int) == lo,
        exists|k: int| start <= k < end && #[trigger] coord64(old(info)@[k].centroid, dim as int) == hi,
    ensures
        final(info).len() == old(info).len(),
        r is None ==> final(info)@ == old(info)@,
        r matches Some(mid) ==> start < mid < end,
        forall|k: int|
            0 <= k < old(info).len() && !(start <= k < end) ==> #[trigger] final(info)@[k] == old(info)@[k],
        final(info)@.subrange(start as int, end as int).to_multiset() == old(info)@.subrange(
            start as int,
            end as int,
        ).to_multiset(),
        r is Some == sah_splits(
            old(info)@.subrange(start as int, end as int),
            dim,
            lo,
            hi,
            surface_area_spec(*bounds),
            max_prims_per_node as int,
        ),
        r matches Some(mid) ==> forall|k: int|
            start <= k < mid ==> goes_first_spec(
                #[trigger] final(info)@[k],
                sah_test(old(info)@.subrange(start as int, end as int), dim, lo, hi, surface_area_spec(*bounds)),
            ),
        r matches Some(mid) ==> forall|k: int|
            mid <= k < end ==> !goes_first_spec(
                #[trigger] final(info)@[k],
                sah_test(old(info)@.subrange(start as int, end as int), dim, lo, hi, surface_area_spec(*bounds)),
            ),
        r matches Some(mid) ==> mid - start == count_first(
            old(info)@.subrange(start as int, end as int),
            sah_test(old(info)@.subrange(start as int, end as int), dim, lo, hi, surface_area_spec(*bounds)),
        ),
{
    let ghost rng = info@.subrange(start as int, end as int);
    let ghost bk = buckets_of(rng, dim, lo, hi);
    let n_primitives = end - start;
    let mut buckets: Vec<BucketInfo> = Vec::new();
    while buckets.len() < N_BUCKETS
        invariant
            buckets.len() <= N_BUCKETS,
            forall|j: int| 0 <= j < buckets.len() ==> (#[trigger] buckets@[j]).count == 0,
            forall|j: int| 0 <= j < buckets.len() ==> (#[trigger] buckets@[j]).bounds == empty_box(),
        decreases N_BUCKETS - buckets.len(),
    {
        buckets.push(BucketInfo { count: 0, bounds: Bounds3::<i32>::new() });
    }
    // Initialize the buckets
    let mut k = start;
    while k < end
        invariant
            start <= k <= end <= info.len(),
            end - start <= u32::MAX,
            dim < 3,
            -0x2_0000_0000 <= lo < hi <= 0x2_0000_0000,
            forall|j: int| start <= j < end ==> lo <= #[trigger] coord64(info@[j].centroid, dim as int) <= hi,
            buckets.len() == N_BUCKETS,
            forall|j: int| 0 <= j < N_BUCKETS ==> (#[trigger] buckets@[j]).count <= k - start,
            forall|j: int|
                0 <= j < N_BUCKETS ==> (#[trigger] buckets@[j]) == (BucketInfo {
                    count: bucket_count(info@.subrange(start as int, k as int), dim, lo, hi, j) as usize,
                    bounds: bucket_bounds(info@.subrange(start as int, k as int), dim, lo, hi, j),
                }),
        decreases end - k,
    {
        let c = centroid_key(&info[k], dim);
        let b = bucket(c, lo, hi);
        let old_bucket = buckets[b];
        let nb = BucketInfo {
            count: old_bucket.count + 1,
            bounds: Bounds3::<i32>::union(&old_bucket.bounds, &info[k].bounds),
        };
        let ghost prev = buckets@;
        buckets.set(b, nb);
        proof {
            let sub = info@.subrange(start as int, k as int);
            let sub1 = info@.subrange(start as int, k + 1);
            assert(sub1.drop_last() =~= sub);
            assert(sub1.last() == info@[k as int]);
            lemma_union_is(old_bucket.bounds, info@[k as int].bounds, nb.bounds);
            assert forall|j: int| 0 <= j < N_BUCKETS implies (#[trigger] buckets@[j]) == (BucketInfo {
                count: bucket_count(sub1, dim, lo, hi, j) as usize,
                bounds: bucket_bounds(sub1, dim, lo, hi, j),
            }) by {
                lemma_bucket_count_le(sub, dim, lo, hi, j);
                if j != b {
                    assert(buckets@[j] == prev[j]);
                }
            }
        }
        k += 1;
    }
    proof {
        assert(info@.subrange(start as int, end as int) == rng);
        assert(buckets@ =~= bk);
    }
    // Compute the costs of splitting after each bucket, scaled by the area
    // of the node's bounds
    let mut cost: Vec<i128> = Vec::new();
    let mut i: usize = 0;
    while i < N_BUCKETS - 1
        invariant
            i <= N_BUCKETS - 1,
            cost.len() == i,
            n_primitives <= u32::MAX,
            buckets.len() == N_BUCKETS,
            forall|j: int| 0 <= j < N_BUCKETS ==> (#[trigger] buckets@[j]).count <= n_primitives,
            forall|j: int|
                0 <= j < cost.len() ==> -0x1_0000_0000_0000_0000_0000_0000_0000 <= #[trigger] cost@[j]
                    <= 0x1_0000_0000_0000_0000_0000_0000_0000,
            buckets@ == bk,
            forall|j: int| 0 <= j < cost.len() ==> #[trigger] cost@[j] == split_cost(bk, j),
        decreases N_BUCKETS - 1 - i,
    {
        let mut b0 = Bounds3::<i32>::new();
        let mut b1 = Bounds3::<i32>::new();
        let mut count0: u64 = 0;
        let mut count1: u64 = 0;
        let mut j: usize = 0;
        while j <= i
            invariant
                i < N_BUCKETS - 1,
                j <= i + 1,
                n_primitives <= u32::MAX,
                buckets.len() == N_BUCKETS,
                forall|q: int| 0 <= q < N_BUCKETS ==> (#[trigger] buckets@[q]).count <= n_primitives,
                count0 <= j * n_primitives,
                buckets@ == bk,
                b0 == range_union(bk, 0, j as int),
                count0 == range_count(bk, 0, j as int),
            decreases i + 1 - j,
        {
            let ghost pb = b0;
            b0 = Bounds3::<i32>::union(&b0, &buckets[j].bounds);
            proof {
                lemma_union_is(pb, buckets@[j as int].bounds, b0);
            }
            assert(count0 + buckets@[j as int].count <= (j + 1) * n_primitives <= 0x10_0000_0000)
                by (nonlinear_arith)
                requires
                    count0 <= j * n_primitives,
                    buckets@[j as int].count <= n_primitives,
                    j <= i < N_BUCKETS - 1,
                    n_primitives <= u32::MAX,
            ;
            count0 = count0 + buckets[j].count as u64;
            j += 1;
        }
        let mut j: usize = i + 1;
        while j < N_BUCKETS
            invariant
                i < N_BUCKETS - 1,
                i + 1 <= j <= N_BUCKETS,
                n_primitives <= u32::MAX,
                buckets.len() == N_BUCKETS,
                forall|q: int| 0 <= q < N_BUCKETS ==> (#[trigger] buckets@[q]).count <= n_primitives,
                count1 <= (j - i - 1) * n_primitives,
                buckets@ == bk,
                b1 == range_union(bk, i + 1, j as int),
                count1 == range_count(bk, i + 1, j as int),
            decreases N_BUCKETS - j,
        {
            let ghost pb = b1;
            b1 = Bounds3::<i32>::union(&b1, &buckets[j].bounds);
            proof {
                lemma_union_is(pb, buckets@[j as int].bounds, b1);
            }
            assert(count1 + buckets@[j as int].count <= (j - i) * n_primitives <= 0x10_0000_0000)
                by (nonlinear_arith)
                requires
                    count1 <= (j - i - 1) * n_primitives,
                    buckets@[j as int].count <= n_primitives,
                    i + 1 <= j < N_BUCKETS,
                    n_primitives <= u32::MAX,
            ;
            count1 = count1 + buckets[j].count as u64;
            j += 1;
        }
        assert(count0 <= 0x10_0000_0000 && count1 <= 0x10_0000_0000) by (nonlinear_arith)
            requires
                count0 <= (i + 1) * n_primitives,
                count1 <= (N_BUCKETS - i - 1) * n_primitives,
                i < N_BUCKETS - 1,
                n_primitives <= u32::MAX,
        ;
        proof {
            lemma_surface_area_bound(b0);
            lemma_surface_area_bound(b1);
        }
        let c = scaled(count0, b0.surface_area()) + scaled(count1, b1.surface_area());
        cost.push(c);
        i += 1;
    }
    let area = bounds.surface_area();
    proof {
        lemma_surface_area_bound(*bounds);
    }
    // Find the bucket to split at that minimizes the SAH metric
    let mut min_cost = cost[0];
    let mut min_cost_split_bucket: usize = 0;
    let mut i: usize = 1;
    while i < N_BUCKETS - 1
        invariant
            1 <= i <= N_BUCKETS - 1,
            cost.len() == N_BUCKETS - 1,
            min_cost_split_bucket < i,
            min_cost == cost@[min_cost_split_bucket as int],
            forall|j: int| 0 <= j < cost.len() ==> #[trigger] cost@[j] == split_cost(bk, j),
            area == surface_area_spec(*bounds),
            min_cost_split_bucket == cheapest_split(bk, area as int, i as int),
        decreases N_BUCKETS - 1 - i,
    {
        if cost_below_exec(cost[i], min_cost, area) {
            min_cost = cost[i];
            min_cost_split_bucket = i;
        }
        i += 1;
    }
    // Either split at the selected bucket or make a leaf
    if n_primitives > max_prims_per_node || below_leaf_cost_exec(min_cost, area, n_primitives as u64) {
        let ghost before = info@;
        let test = SplitTest::LowBuckets { dim, lo, hi, split: min_cost_split_bucket };
        let count = partition_range(info, start, end, test);
        proof {
            let kl = choose|k: int| start <= k < end && #[trigger] coord64(before[k].centroid, dim as int) == lo;
            let kh = choose|k: int| start <= k < end && #[trigger] coord64(before[k].centroid, dim as int) == hi;
            let old_range = before.subrange(start as int, end as int);
            let new_range = info@.subrange(start as int, end as int);
            let fl = lemma_multiset_finds(old_range, new_range, kl - start);
            let fh = lemma_multiset_finds(old_range, new_range, kh - start);
            assert(new_range[fl] == info@[start + fl]);
            assert(new_range[fh] == info@[start + fh]);
            assert(bucket_spec(lo as int, lo as int, hi as int) == 0);
            assert(bucket_spec(hi as int, lo as int, hi as int) == N_BUCKETS - 1) by (nonlinear_arith)
                requires
                    lo < hi,
            ;
            assert(goes_first_spec(info@[start + fl], test));
            assert(!goes_first_spec(info@[start + fh], test));
            assert forall|k: int| 0 <= k < count implies goes_first_spec(#[trigger] new_range[k], test) by {
                assert(new_range[k] == info@[start + k]);
            }
            assert forall|k: int| count <= k < new_range.len() implies !goes_first_spec(#[trigger] new_range[k], test) by {
                assert(new_range[k] == info@[start + k]);
            }
            lemma_count_first_partitioned(new_range, test, count as int);
        }
        Some(start + count)
    } else {
        None
    }
}

} // verus!

verus! {

/// The number of the primitives of `s` that `test` sends to the first part.
pub open spec fn count_first(s: Seq<PrimitiveInfo>, test: SplitTest) -> nat {
    s.to_multiset().filter(|pi: PrimitiveInfo| goes_first_spec(pi, test)).len()
}

/// In a sequence whose first `r` elements pass `test` and whose others fail
/// it, `r` of them pass.
proof fn lemma_count_first_partitioned(t: Seq<PrimitiveInfo>, test: SplitTest, r: int)
    requires
        0 <= r <= t.len(),
        forall|k: int| 0 <= k < r ==> goes_first_spec(#[trigger] t[k], test),
        forall|k: int| r <= k < t.len() ==> !goes_first_spec(#[trigger] t[k], test),
    ensures
        count_first(t, test) == r,
{
    broadcast use vstd::seq_lib::group_to_multiset_ensures;
    broadcast use vstd::multiset::group_multiset_axioms;

    let p = |pi: PrimitiveInfo| goes_first_spec(pi, test);
    let a = t.subrange(0, r);
    let b = t.subrange(r, t.len() as int);
    assert(t =~= a + b);
    vstd::seq_lib::lemma_multiset_commutative(a, b);
    assert(t.to_multiset().filter(p) =~= a.to_multiset()) by {
        assert forall|v: PrimitiveInfo| #[trigger] t.to_multiset().filter(p).count(v) == a.to_multiset().count(v) by {
            if p(v) {
                if b.to_multiset().count(v) > 0 {
                    assert(b.contains(v));
                    let k = choose|k: int| 0 <= k < b.len() && b[k] == v;
                    assert(b[k] == t[r + k]);
                }
            } else {
                if a.to_multiset().count(v) > 0 {
                    assert(a.contains(v));
                    let k = choose|k: int| 0 <= k < a.len() && a[k] == v;
                    assert(a[k] == t[k]);
                }
            }
        }
    }
}

/// The midpoint split of `info[start..end]` along `dim`, whose doubled
/// centres span `[lo, hi]`: the primitives whose centre lies below the middle
/// go first, and the split index follows them. When none or all of them
/// lie below the middle, the range is sorted along `dim` and split in half
/// instead.
fn middle_split(info: &mut Vec<PrimitiveInfo>, start: usize, end: usize, dim: usize, lo: i64, hi: i64) -> (r: usize)
    requires
        start + 1 < end <= old(info).len(),
        old(info).len() <= isize::MAX,
        dim < 3,
        -0x2_0000_0000 <= lo <= hi <= 0x2_0000_0000,
        forall|k: int|
            start <= k < end ==> lo <= #[trigger] coord64(old(info)@[k].centroid, dim as int) <= hi,
    ensures
        start < r < end,
        final(info).len() == old(info).len(),
        forall|k: int|
            0 <= k < old(info).len() && !(start <= k < end) ==> #[trigger] final(info)@[k] == old(info)@[k],
        final(info)@.subrange(start as int, end as int).to_multiset() == old(info)@.subrange(
            start as int,
            end as int,
        ).to_multiset(),
        ({
            let test = SplitTest::BelowMiddle { dim, faces: (lo + hi) as i64 };
            let c = count_first(old(info)@.subrange(start as int, end as int), test);
            let m = start + c;
            if start < m < end {
                &&& r == m
                &&& forall|k: int| start <= k < start + c ==> goes_first_spec(#[trigger] final(info)@[k], test)
                &&& forall|k: int| start + c <= k < end ==> !goes_first_spec(#[trigger] final(info)@[k], test)
            } else {
                &&& r == (start + end) / 2
                &&& forall|j: int, k: int|
                    start <= j <= k < end ==> coord64(#[trigger] final(info)@[j].centroid, dim as int)
                        <= coord64(#[trigger] final(info)@[k].centroid, dim as int)
            }
        }),
{
    let test = SplitTest::BelowMiddle { dim, faces: lo + hi };
    let ghost old_range = info@.subrange(start as int, end as int);
    proof {
        let s = info@.subrange(start as int, end as int);
        assert forall|k: int| 0 <= k < s.len() implies -0x2_0000_0000 <= #[trigger] coord64(
            s[k].centroid,
            dim as int,
        ) <= 0x2_0000_0000 by {
            assert(s[k] == info@[start + k]);
        }
    }
    let count = partition_range(info, start, end, test);
    proof {
        let t = info@.subrange(start as int, end as int);
        assert forall|k: int| 0 <= k < count implies goes_first_spec(#[trigger] t[k], test) by {
            assert(t[k] == info@[start + k]);
        }
        assert forall|k: int| count <= k < t.len() implies !goes_first_spec(#[trigger] t[k], test) by {
            assert(t[k] == info@[start + k]);
        }
        lemma_count_first_partitioned(t, test, count as int);
        assert(count_first(old_range, test) == count_first(t, test));
    }
    let mut mid = start + count;
    if mid == start || mid == end {
        sort_range_by_centroid(info, start, end, dim);
        mid = (start + end) / 2;
    }
    mid
}

/// The split of the two primitives `info[start]` and `info[end - 1]` along
/// `dim`: they are put in order of their centres and split between them.
fn two_split(info: &mut Vec<PrimitiveInfo>, start: usize, end: usize, dim: usize) -> (r: usize)
    requires
        start + 2 == end <= old(info).len(),
        old(info).len() <= isize::MAX,
        dim < 3,
    ensures
        r == start + 1,
        final(info).len() == old(info).len(),
        forall|k: int|
            0 <= k < old(info).len() && !(start <= k < end) ==> #[trigger] final(info)@[k] == old(info)@[k],
        final(info)@.subrange(start as int, end as int).to_multiset() == old(info)@.subrange(
            start as int,
            end as int,
        ).to_multiset(),
        forall|j: int, k: int|
            start <= j <= k < end ==> coord64(#[trigger] final(info)@[j].centroid, dim as int)
                <= coord64(#[trigger] final(info)@[k].centroid, dim as int),
{
    let mid = (start + end) / 2;
    if start != end - 1 && centroid_key(&info[end - 1], dim) < centroid_key(&info[start], dim) {
        let a = info[start];
        let b = info[end - 1];
        let ghost before = info@;
        info.set(start, b);
        info.set(end - 1, a);
        proof {
            broadcast use vstd::seq_lib::group_to_multiset_ensures;

            let s_old = before.subrange(start as int, end as int);
            let s_new = info@.subrange(start as int, end as int);
            assert(s_old =~= seq![a].push(b));
            assert(s_new =~= seq![b].push(a));
            assert(seq![a] =~= Seq::<PrimitiveInfo>::empty().push(a));
            assert(seq![b] =~= Seq::<PrimitiveInfo>::empty().push(b));
            assert(s_old.to_multiset() =~= s_new.to_multiset());
        }
    }
    mid
}

} // verus!

verus! {

/// A bounding volume hierarchy over primitives of type `P`, flattened into
/// depth-first order.
pub struct Bvh<P: Primitive> {
    max_prims_per_node: usize,
    primitives: Vec<Arc<P>>,
    nodes: Vec<LNode>,
}

proof fn lemma_subrange_split(s: Seq<PrimitiveInfo>, a: int, m: int, b: int)
    requires
        0 <= a <= m <= b <= s.len(),
    ensures
        s.subrange(a, b).to_multiset() == s.subrange(a, m).to_multiset().add(
            s.subrange(m, b).to_multiset(),
        ),
{
    assert(s.subrange(a, b) =~= s.subrange(a, m) + s.subrange(m, b));
    vstd::seq_lib::lemma_multiset_commutative(s.subrange(a, m), s.subrange(m, b));
}

proof fn lemma_all_ok_subrange(s: Seq<PrimitiveInfo>, a: int, b: int, c: int, d: int, n: int)
    requires
        0 <= a <= c <= d <= b <= s.len(),
        all_ok(s.subrange(a, b), n),
    ensures
        all_ok(s.subrange(c, d), n),
{
    assert forall|k: int| 0 <= k < d - c implies info_ok(#[trigger] s.subrange(c, d)[k], n) by {
        assert(s.subrange(c, d)[k] == s.subrange(a, b)[k + c - a]);
    }
}

proof fn lemma_centroid_coords(s: Seq<PrimitiveInfo>, n: int, k: int, d: int)
    requires
        all_ok(s, n),
        0 <= k < s.len(),
        0 <= d < 3,
    ensures
        -0x2_0000_0000 <= coord64(s[k].centroid, d) <= 0x2_0000_0000,
{
    assert(info_ok(s[k], n));
}

/// Every description in `s` carries the world bounds of the primitive it
/// stands for.
pub open spec fn bounds_match<P: Primitive>(s: Seq<PrimitiveInfo>, primitives: Seq<Arc<P>>) -> bool {
    forall|k: int|
        0 <= k < s.len() ==> (#[trigger] s[k]).bounds == primitives[s[k].prim_number as int].world_bounds_spec()
}

/// The bounds of every node of the tree rooted at `node` enclose the world
/// bounds of the ordered primitives its leaves cover from `lo` on.
pub open spec fn node_encloses<P: Primitive>(node: BuildNode, lo: int, prims: Seq<Arc<P>>) -> bool
    decreases node,
{
    &&& forall|j: int|
        lo <= j < lo + node.prim_count() ==> encloses(node.bounds_of(), #[trigger] prims[j].world_bounds_spec())
    &&& match node {
        BuildNode::Interior { children, .. } => node_encloses(*children.1, lo, prims) && node_encloses(
            *children.0,
            lo + children.1.prim_count(),
            prims,
        ),
        BuildNode::Leaf { .. } => true,
    }
}

proof fn lemma_bounds_match_multiset<P: Primitive>(a: Seq<PrimitiveInfo>, b: Seq<PrimitiveInfo>, primitives: Seq<Arc<P>>)
    requires
        a.to_multiset() == b.to_multiset(),
        bounds_match(a, primitives),
    ensures
        bounds_match(b, primitives),
{
    assert forall|k: int| 0 <= k < b.len() implies (#[trigger] b[k]).bounds
        == primitives[b[k].prim_number as int].world_bounds_spec() by {
        let j = lemma_multiset_finds(b, a, k);
    }
}

proof fn lemma_bounds_match_subrange<P: Primitive>(s: Seq<PrimitiveInfo>, a: int, b: int, c: int, d: int, primitives: Seq<Arc<P>>)
    requires
        0 <= a <= c <= d <= b <= s.len(),
        bounds_match(s.subrange(a, b), primitives),
    ensures
        bounds_match(s.subrange(c, d), primitives),
{
    assert forall|k: int| 0 <= k < d - c implies (#[trigger] s.subrange(c, d)[k]).bounds
        == primitives[s.subrange(c, d)[k].prim_number as int].world_bounds_spec() by {
        assert(s.subrange(c, d)[k] == s.subrange(a, b)[k + c - a]);
    }
}

proof fn lemma_prim_count_nonneg(node: BuildNode)
    ensures
        node.prim_count() >= 0,
    decreases node,
{
    if let BuildNode::Interior { children, .. } = node {
        lemma_prim_count_nonneg(*children.0);
        lemma_prim_count_nonneg(*children.1);
    }
}

/// Whether a tree encloses its primitives depends only on the entries its
/// leaves cover.
proof fn lemma_node_encloses_frame<P: Primitive>(node: BuildNode, lo: int, a: Seq<Arc<P>>, b: Seq<Arc<P>>)
    requires
        node_encloses(node, lo, a),
        forall|j: int| lo <= j < lo + node.prim_count() ==> #[trigger] b[j] == a[j],
    ensures
        node_encloses(node, lo, b),
    decreases node,
{
    assert forall|j: int| lo <= j < lo + node.prim_count() implies encloses(
        node.bounds_of(),
        #[trigger] b[j].world_bounds_spec(),
    ) by {
        assert(b[j] == a[j]);
    }
    if let BuildNode::Interior { children, .. } = node {
        lemma_prim_count_nonneg(*children.0);
        lemma_prim_count_nonneg(*children.1);
        lemma_node_encloses_frame(*children.1, lo, a, b);
        lemma_node_encloses_frame(*children.0, lo + children.1.prim_count(), a, b);
    }
}

/// A leaf over `info[start..end]`, whose bounds enclose theirs, encloses the
/// primitives it appended.
proof fn lemma_leaf_encloses<P: Primitive>(
    primitives: Seq<Arc<P>>,
    info: Seq<PrimitiveInfo>,
    start: int,
    end: int,
    node: BuildNode,
    old_ordered: Seq<Arc<P>>,
    new_ordered: Seq<Arc<P>>,
)
    requires
        0 <= start < end <= info.len(),
        bounds_match(info.subrange(start, end), primitives),
        new_ordered == old_ordered + prims_of(primitives, info.subrange(start, end)),
        node is Leaf,
        node.prim_count() == end - start,
        forall|k: int| start <= k < end ==> encloses(node.bounds_of(), #[trigger] info[k].bounds),
    ensures
        node_encloses(node, old_ordered.len() as int, new_ordered),
{
    let lo = old_ordered.len() as int;
    assert forall|j: int| lo <= j < lo + node.prim_count() implies encloses(
        node.bounds_of(),
        #[trigger] new_ordered[j].world_bounds_spec(),
    ) by {
        let k = start + (j - lo);
        assert(info.subrange(start, end)[j - lo] == info[k]);
        assert(new_ordered[j] == primitives[info[k].prim_number as int]);
        assert(encloses(node.bounds_of(), info[k].bounds));
    }
}

/// Whether the build makes a leaf of the primitives `s`, whose bounds have
/// surface area `area`: a single primitive, centres that coincide on the axis
/// of greatest centroid extent, or, with the SAH, more than two primitives
/// that the SAH does not split.
pub open spec fn leaf_rule(s: Seq<PrimitiveInfo>, method: SplitMethod, max_prims: int, area: int) -> bool {
    let cb = centroid_bounds_of(s);
    let d = maximum_extent_spec(cb).index();
    let lo = coord64(cb.p_min, d);
    let hi = coord64(cb.p_max, d);
    s.len() == 1 || lo == hi || (method is Sah && s.len() > 2 && !sah_splits(
        s,
        d as usize,
        lo as i64,
        hi as i64,
        area,
        max_prims,
    ))
}

/// How many of the primitives `s`, which stand at `start..start + s.len()`,
/// the build of an interior node over them hands to its first child, for a
/// node whose bounds have surface area `area`. The middle split counts the
/// centres below the middle of the widest centroid extent and cuts after
/// them, halving the range when none or all of them lie below it; the SAH
/// split counts those in the buckets below the cheapest cut, and two
/// primitives are split one and one.
pub open spec fn first_child_count(s: Seq<PrimitiveInfo>, start: int, method: SplitMethod, area: int) -> int {
    let cb = centroid_bounds_of(s);
    let d = maximum_extent_spec(cb).index();
    let lo = coord64(cb.p_min, d);
    let hi = coord64(cb.p_max, d);
    match method {
        SplitMethod::Middle => {
            let m = start + count_first(s, SplitTest::BelowMiddle { dim: d as usize, faces: (lo + hi) as i64 });
            if start < m < start + s.len() {
                m - start
            } else {
                (2 * start + s.len()) / 2 - start
            }
        },
        SplitMethod::EqualCounts => (s.len() / 2) as int,
        SplitMethod::Sah => if s.len() <= 2 {
            1
        } else {
            count_first(s, sah_test(s, d as usize, lo as i64, hi as i64, area)) as int
        },
    }
}

/// The primitives `t` are in nondecreasing order of their doubled centres on
/// axis `d`.
pub open spec fn sorted_on(t: Seq<PrimitiveInfo>, d: int) -> bool {
    forall|j: int, k: int|
        0 <= j <= k < t.len() ==> coord64(#[trigger] t[j].centroid, d) <= coord64(#[trigger] t[k].centroid, d)
}

/// The first `c` primitives of `t` pass `test` and the others fail it.
pub open spec fn parted(t: Seq<PrimitiveInfo>, c: int, test: SplitTest) -> bool {
    &&& forall|k: int| 0 <= k < c ==> goes_first_spec(#[trigger] t[k], test)
    &&& forall|k: int| c <= k < t.len() ==> !goes_first_spec(#[trigger] t[k], test)
}

/// How an interior node over the primitives `s`, which stand at
/// `start..start + s.len()`, arranged them as `t` before handing the first
/// `first_child_count` of them to its first child: those that pass the middle
/// or SAH test first, or, when the middle cut falls outside the range and for
/// two primitives, sorted along the axis of greatest centroid extent.
pub open spec fn split_rule(s: Seq<PrimitiveInfo>, t: Seq<PrimitiveInfo>, start: int, method: SplitMethod, area: int) -> bool {
    let cb = centroid_bounds_of(s);
    let d = maximum_extent_spec(cb).index();
    let lo = coord64(cb.p_min, d);
    let hi = coord64(cb.p_max, d);
    let c = first_child_count(s, start, method, area);
    match method {
        SplitMethod::Middle => {
            let test = SplitTest::BelowMiddle { dim: d as usize, faces: (lo + hi) as i64 };
            let m = start + count_first(s, test);
            if start < m < start + s.len() {
                parted(t, count_first(s, test) as int, test)
            } else {
                sorted_on(t, d)
            }
        },
        SplitMethod::EqualCounts => true,
        SplitMethod::Sah => if s.len() <= 2 {
            sorted_on(t, d)
        } else {
            parted(t, c, sah_test(s, d as usize, lo as i64, hi as i64, area))
        },
    }
}

/// The tree `node` is what the build makes of the primitives `s`, which stand
/// at `start..start + s.len()`: its box is their union, it is a leaf exactly
/// when `leaf_rule` says so, and an interior node splits along the axis of
/// greatest centroid extent, arranges the primitives by `split_rule`, and
/// builds its children in the same way over the two parts.
#[verifier::opaque]
pub open spec fn shaped(node: BuildNode, s: Seq<PrimitiveInfo>, start: int, method: SplitMethod, max_prims: int) -> bool
    decreases node,
{
    let area = surface_area_spec(node.bounds_of());
    &&& node.bounds_of() == union_all(bounds_seq(s))
    &&& node.prim_count() == s.len()
    &&& (node is Leaf) == leaf_rule(s, method, max_prims, area)
    &&& match node {
        BuildNode::Leaf { .. } => true,
        BuildNode::Interior { children, split_axis, .. } => {
            let c = first_child_count(s, start, method, area);
            &&& split_axis == maximum_extent_spec(centroid_bounds_of(s))
            &&& 0 < c < s.len()
            &&& exists|t: Seq<PrimitiveInfo>|
                #![trigger split_rule(s, t, start, method, area)]
                {
                    &&& t.len() == s.len()
                    &&& t.to_multiset() == s.to_multiset()
                    &&& split_rule(s, t, start, method, area)
                    &&& shaped(*children.0, t.subrange(0, c), start, method, max_prims)
                    &&& shaped(*children.1, t.subrange(c, t.len() as int), start + c, method, max_prims)
                }
        },
    }
}

/// What `middle_split` leaves in `fin[start..end]`, at the cut `mid`, is the
/// arrangement and the count that `split_rule` and `first_child_count` give.
proof fn lemma_middle_rule(s: Seq<PrimitiveInfo>, fin: Seq<PrimitiveInfo>, start: int, end: int, mid: int, area: int)
    requires
        0 <= start < end <= fin.len(),
        s.len() == end - start,
        ({
            let cb = centroid_bounds_of(s);
            let d = maximum_extent_spec(cb).index();
            let test = SplitTest::BelowMiddle {
                dim: d as usize,
                faces: (coord64(cb.p_min, d) + coord64(cb.p_max, d)) as i64,
            };
            let c = count_first(s, test);
            let m = start + c;
            if start < m < end {
                &&& mid == m
                &&& forall|k: int| start <= k < start + c ==> goes_first_spec(#[trigger] fin[k], test)
                &&& forall|k: int| start + c <= k < end ==> !goes_first_spec(#[trigger] fin[k], test)
            } else {
                &&& mid == (start + end) / 2
                &&& forall|j: int, k: int|
                    start <= j <= k < end ==> coord64(#[trigger] fin[j].centroid, d) <= coord64(
                        #[trigger] fin[k].centroid,
                        d,
                    )
            }
        }),
    ensures
        split_rule(s, fin.subrange(start, end), start, SplitMethod::Middle, area),
        mid - start == first_child_count(s, start, SplitMethod::Middle, area),
{
    let cb = centroid_bounds_of(s);
    let d = maximum_extent_spec(cb).index();
    let test = SplitTest::BelowMiddle { dim: d as usize, faces: (coord64(cb.p_min, d) + coord64(cb.p_max, d)) as i64 };
    let c = count_first(s, test) as int;
    if start < start + c < end {
        lemma_parted_range(fin, start, end, c, test);
    } else {
        lemma_sorted_range(fin, start, end, d);
    }
}

/// What the SAH split leaves in `fin[start..end]` for more than two
/// primitives, at the cut `mid`, is the arrangement and the count that
/// `split_rule` and `first_child_count` give.
proof fn lemma_sah_rule(s: Seq<PrimitiveInfo>, fin: Seq<PrimitiveInfo>, start: int, end: int, mid: int, area: int)
    requires
        0 <= start < mid <= end <= fin.len(),
        s.len() == end - start,
        s.len() > 2,
        ({
            let cb = centroid_bounds_of(s);
            let d = maximum_extent_spec(cb).index();
            let test = sah_test(s, d as usize, coord64(cb.p_min, d) as i64, coord64(cb.p_max, d) as i64, area);
            &&& mid - start == count_first(s, test)
            &&& forall|k: int| start <= k < mid ==> goes_first_spec(#[trigger] fin[k], test)
            &&& forall|k: int| mid <= k < end ==> !goes_first_spec(#[trigger] fin[k], test)
        }),
    ensures
        split_rule(s, fin.subrange(start, end), start, SplitMethod::Sah, area),
        mid - start == first_child_count(s, start, SplitMethod::Sah, area),
{
    let cb = centroid_bounds_of(s);
    let d = maximum_extent_spec(cb).index();
    let test = sah_test(s, d as usize, coord64(cb.p_min, d) as i64, coord64(cb.p_max, d) as i64, area);
    lemma_parted_range(fin, start, end, mid - start, test);
}

/// Two primitives put in order along the axis of greatest centroid extent
/// are the arrangement that `split_rule` gives.
proof fn lemma_two_rule(s: Seq<PrimitiveInfo>, fin: Seq<PrimitiveInfo>, start: int, end: int, area: int)
    requires
        0 <= start < end <= fin.len(),
        s.len() == end - start,
        s.len() == 2,
        forall|j: int, k: int|
            start <= j <= k < end ==> coord64(#[trigger] fin[j].centroid, maximum_extent_spec(centroid_bounds_of(s)).index())
                <= coord64(#[trigger] fin[k].centroid, maximum_extent_spec(centroid_bounds_of(s)).index()),
    ensures
        split_rule(s, fin.subrange(start, end), start, SplitMethod::Sah, area),
        1 == first_child_count(s, start, SplitMethod::Sah, area),
{
    lemma_sorted_range(fin, start, end, maximum_extent_spec(centroid_bounds_of(s)).index());
}

/// An interior node whose box, leaf decision and axis follow the rules over
/// `s`, and whose children are shaped over the two parts of an arrangement
/// `t` of `s` that follows `split_rule`, is shaped over `s`.
proof fn lemma_shaped_interior(
    node: BuildNode,
    s: Seq<PrimitiveInfo>,
    t: Seq<PrimitiveInfo>,
    start: int,
    method: SplitMethod,
    max_prims: int,
)
    requires
        node matches BuildNode::Interior { split_axis, .. } && split_axis == maximum_extent_spec(centroid_bounds_of(s)),
        node.bounds_of() == union_all(bounds_seq(s)),
        node.prim_count() == s.len(),
        !leaf_rule(s, method, max_prims, surface_area_spec(node.bounds_of())),
        t.len() == s.len(),
        t.to_multiset() == s.to_multiset(),
        split_rule(s, t, start, method, surface_area_spec(node.bounds_of())),
        ({
            let c = first_child_count(s, start, method, surface_area_spec(node.bounds_of()));
            &&& 0 < c < s.len()
            &&& node matches BuildNode::Interior { children, .. } && shaped(*children.0, t.subrange(0, c), start, method, max_prims)
                && shaped(*children.1, t.subrange(c, t.len() as int), start + c, method, max_prims)
        }),
    ensures
        shaped(node, s, start, method, max_prims),
{
    reveal(shaped);
    assert(split_rule(s, t, start, method, surface_area_spec(node.bounds_of())));
}

/// A leaf whose box is the union of `s` and that `leaf_rule` asks for is
/// shaped over `s`.
proof fn lemma_shaped_leaf(node: BuildNode, s: Seq<PrimitiveInfo>, start: int, method: SplitMethod, max_prims: int)
    requires
        node is Leaf,
        node.bounds_of() == union_all(bounds_seq(s)),
        node.prim_count() == s.len(),
        leaf_rule(s, method, max_prims, surface_area_spec(node.bounds_of())),
    ensures
        shaped(node, s, start, method, max_prims),
{
    reveal(shaped);
}

/// What a tree shaped over `s` says of its root: its box is the union of
/// `s`, whether it is a leaf follows `leaf_rule`, an interior root splits
/// along the axis of greatest centroid extent, and its first child holds
/// `first_child_count` of the primitives.
pub proof fn lemma_shaped_root(node: BuildNode, s: Seq<PrimitiveInfo>, start: int, method: SplitMethod, max_prims: int)
    requires
        shaped(node, s, start, method, max_prims),
    ensures
        node.bounds_of() == union_all(bounds_seq(s)),
        node.prim_count() == s.len(),
        (node is Leaf) == leaf_rule(s, method, max_prims, surface_area_spec(node.bounds_of())),
        node matches BuildNode::Interior { split_axis, .. } ==> split_axis == maximum_extent_spec(centroid_bounds_of(s)),
        node matches BuildNode::Interior { children, .. } ==> children.0.prim_count() == first_child_count(
            s,
            start,
            method,
            surface_area_spec(node.bounds_of()),
        ),
{
    reveal(shaped);
    if let BuildNode::Interior { children, .. } = node {
        let c = first_child_count(s, start, method, surface_area_spec(node.bounds_of()));
        let t = choose|t: Seq<PrimitiveInfo>|
            {
                &&& t.len() == s.len()
                &&& t.to_multiset() == s.to_multiset()
                &&& #[trigger] split_rule(s, t, start, method, surface_area_spec(node.bounds_of()))
                &&& shaped(*children.0, t.subrange(0, c), start, method, max_prims)
                &&& shaped(*children.1, t.subrange(c, t.len() as int), start + c, method, max_prims)
            };
        assert(shaped(*children.0, t.subrange(0, c), start, method, max_prims));
    }
}

proof fn lemma_parted_range(fin: Seq<PrimitiveInfo>, start: int, end: int, c: int, test: SplitTest)
    requires
        0 <= start <= start + c <= end <= fin.len(),
        forall|k: int| start <= k < start + c ==> goes_first_spec(#[trigger] fin[k], test),
        forall|k: int| start + c <= k < end ==> !goes_first_spec(#[trigger] fin[k], test),
    ensures
        parted(fin.subrange(start, end), c, test),
{
    let t = fin.subrange(start, end);
    assert forall|k: int| 0 <= k < c implies goes_first_spec(#[trigger] t[k], test) by {
        assert(t[k] == fin[start + k]);
    }
    assert forall|k: int| c <= k < t.len() implies !goes_first_spec(#[trigger] t[k], test) by {
        assert(t[k] == fin[start + k]);
    }
}

proof fn lemma_sorted_range(fin: Seq<PrimitiveInfo>, start: int, end: int, d: int)
    requires
        0 <= start <= end <= fin.len(),
        forall|j: int, k: int|
            start <= j <= k < end ==> coord64(#[trigger] fin[j].centroid, d) <= coord64(#[trigger] fin[k].centroid, d),
    ensures
        sorted_on(fin.subrange(start, end), d),
{
    let t = fin.subrange(start, end);
    assert forall|j: int, k: int| 0 <= j <= k < t.len() implies coord64(#[trigger] t[j].centroid, d) <= coord64(
        #[trigger] t[k].centroid,
        d,
    ) by {
        assert(t[j] == fin[start + j]);
        assert(t[k] == fin[start + k]);
    }
}

/// With the middle split, the build makes a leaf exactly when there is a
/// single primitive or the centres of all the primitives coincide.
pub proof fn law_middle_leaf_iff_centres_coincide(s: Seq<PrimitiveInfo>, max_prims: int, area: int)
    requires
        s.len() >= 1,
    ensures
        leaf_rule(s, SplitMethod::Middle, max_prims, area) <==> (s.len() == 1 || forall|j: int, k: int|
            0 <= j < s.len() && 0 <= k < s.len() ==> #[trigger] s[j].centroid == #[trigger] s[k].centroid),
{
    let cb = centroid_bounds_of(s);
    let d = maximum_extent_spec(cb).index();
    lemma_centroid_bounds(s, 0);
    lemma_centroid_bounds(s, 1);
    lemma_centroid_bounds(s, 2);
    crate::bounds::law_maximum_extent_longest(cb, 0);
    crate::bounds::law_maximum_extent_longest(cb, 1);
    crate::bounds::law_maximum_extent_longest(cb, 2);
    if s.len() > 1 {
        if coord64(cb.p_min, d) == coord64(cb.p_max, d) {
            assert forall|j: int, k: int| 0 <= j < s.len() && 0 <= k < s.len() implies #[trigger] s[j].centroid
                == #[trigger] s[k].centroid by {
                assert(coord64(s[j].centroid, 0) == coord64(s[k].centroid, 0));
                assert(coord64(s[j].centroid, 1) == coord64(s[k].centroid, 1));
                assert(coord64(s[j].centroid, 2) == coord64(s[k].centroid, 2));
            }
        }
        if forall|j: int, k: int| 0 <= j < s.len() && 0 <= k < s.len() ==> #[trigger] s[j].centroid == #[trigger] s[k].centroid {
            let k0 = choose|k: int| 0 <= k < s.len() && #[trigger] coord64(s[k].centroid, d) == coord64(cb.p_min, d);
            let k1 = choose|k: int| 0 <= k < s.len() && #[trigger] coord64(s[k].centroid, d) == coord64(cb.p_max, d);
            assert(s[k0].centroid == s[k1].centroid);
        }
    }
}

/// Two boxes that enclose the bounds of two reorderings of the same
/// primitives and reach each of their faces are the same box.
proof fn lemma_same_box(a: Bounds3<i32>, b: Bounds3<i32>, s1: Seq<PrimitiveInfo>, s2: Seq<PrimitiveInfo>)
    requires
        s1.to_multiset() == s2.to_multiset(),
        forall|k: int| 0 <= k < s1.len() ==> encloses(a, #[trigger] s1[k].bounds),
        forall|k: int| 0 <= k < s2.len() ==> encloses(b, #[trigger] s2[k].bounds),
        faces_attained(a, bounds_seq(s1)),
        faces_attained(b, bounds_seq(s2)),
    ensures
        a == b,
{
    assert forall|axis: int, upper: bool| 0 <= axis < 3 implies face(a, axis, upper) == face(b, axis, upper) by {
        assert(attains(a, bounds_seq(s1), axis, upper));
        assert(attains(b, bounds_seq(s2), axis, upper));
        let ka = choose|k: int| 0 <= k < bounds_seq(s1).len() && #[trigger] face(bounds_seq(s1)[k], axis, upper) == face(a, axis, upper);
        let kb = choose|k: int| 0 <= k < bounds_seq(s2).len() && #[trigger] face(bounds_seq(s2)[k], axis, upper) == face(b, axis, upper);
        let ja = lemma_multiset_finds(s1, s2, ka);
        let jb = lemma_multiset_finds(s2, s1, kb);
        assert(encloses(b, s2[ja].bounds));
        assert(encloses(a, s1[jb].bounds));
        assert(bounds_seq(s1)[ka] == s1[ka].bounds);
        assert(bounds_seq(s2)[kb] == s2[kb].bounds);
        assert(coord(s2[ja].bounds.p_min, axis) == coord(s1[ka].bounds.p_min, axis));
        assert(coord(s1[jb].bounds.p_min, axis) == coord(s2[kb].bounds.p_min, axis));
    }
    assert(face(a, 0, false) == face(b, 0, false));
    assert(face(a, 1, false) == face(b, 1, false));
    assert(face(a, 2, false) == face(b, 2, false));
    assert(face(a, 0, true) == face(b, 0, true));
    assert(face(a, 1, true) == face(b, 1, true));
    assert(face(a, 2, true) == face(b, 2, true));
}

impl<P: Primitive> Bvh<P> {
    /// Builds the subtree over `primitive_info[start..end]`: counts its nodes
    /// in `total_nodes`, appends its primitives to `ordered_prims` leaf by
    /// leaf, and reorders `primitive_info[start..end]` as it splits. The ghost
    /// part of the result lists the infos of the appended primitives in order.
    #[verifier::rlimit(100)]
    #[verifier::spinoff_prover]
    fn build(
        primitives: &[Arc<P>],
        primitive_info: &mut Vec<PrimitiveInfo>,
        start: usize,
        end: usize,
        max_prims_per_node: usize,
        total_nodes: &mut usize,
        ordered_prims: &mut Vec<Arc<P>>,
        split_method: SplitMethod,
    ) -> (r: (BuildNode, Ghost<Seq<PrimitiveInfo>>))
        requires
            start < end <= old(primitive_info).len(),
            old(primitive_info).len() <= isize::MAX,
            all_ok(old(primitive_info)@.subrange(start as int, end as int), primitives@.len() as int),
            *old(total_nodes) + 2 * (end - start) <= usize::MAX,
            split_method is EqualCounts ==> (end - start == 1 || centroids_coincide(
                old(primitive_info)@.subrange(start as int, end as int),
            )),
            split_method is Sah ==> end - start <= u32::MAX,
            bounds_match(old(primitive_info)@.subrange(start as int, end as int), primitives@),
        ensures
            final(primitive_info).len() == old(primitive_info).len(),
            forall|k: int|
                0 <= k < old(primitive_info).len() && !(start <= k < end) ==> #[trigger] final(primitive_info)@[k] == old(primitive_info)@[k],
            final(primitive_info)@.subrange(start as int, end as int).to_multiset() == old(primitive_info)@.subrange(start as int, end as int).to_multiset(),
            final(ordered_prims)@ == old(ordered_prims)@ + prims_of(primitives@, r.1@),
            r.1@.to_multiset() == old(primitive_info)@.subrange(start as int, end as int).to_multiset(),
            *final(total_nodes) == *old(total_nodes) + r.0.node_count(),
            r.0.node_count() <= 2 * (end - start) - 1,
            r.0.prim_count() == end - start,
            r.0.covers(old(ordered_prims).len() as int),
            forall|k: int|
                start <= k < end ==> encloses(r.0.bounds_of(), #[trigger] final(primitive_info)@[k].bounds),
            node_encloses(r.0, old(ordered_prims).len() as int, final(ordered_prims)@),
            faces_attained(r.0.bounds_of(), bounds_seq(final(primitive_info)@.subrange(start as int, end as int))),
            shaped(r.0, old(primitive_info)@.subrange(start as int, end as int), start as int, split_method, max_prims_per_node as int),
        decreases end - start,
    {
        proof {
            assert forall|k: int| start <= k < end implies (#[trigger] primitive_info@[k]).prim_number
                < primitives@.len() by {
                assert(primitive_info@.subrange(start as int, end as int)[k - start] == primitive_info@[k]);
            }
        }
        *total_nodes += 1;
        let n_primitives = end - start;
        // Compute bounds of all primitives in node
        let bounds = range_bounds(primitive_info, start, end);
        let ghost range = primitive_info@.subrange(start as int, end as int);
        if n_primitives == 1 {
            let node = make_leaf(primitives, primitive_info, start, end, bounds, ordered_prims);
            proof {
                lemma_leaf_encloses(primitives@, primitive_info@, start as int, end as int, node, old(ordered_prims)@, ordered_prims@);
                lemma_shaped_leaf(node, range, start as int, split_method, max_prims_per_node as int);
            }
            return (node, Ghost(primitive_info@.subrange(start as int, end as int)));
        }
        // Compute bounds of primitive centroids and choose the split dimension
        let centroids_bounds = centroid_bounds(primitive_info, start, end);
        let dimension = centroids_bounds.maximum_extent();
        let d = dimension.to_index();
        let lo = centroids_bounds.p_min.get(d);
        let hi = centroids_bounds.p_max.get(d);
        proof {
            lemma_centroid_bounds(range, d as int);
            assert forall|k: int| start <= k < end implies lo <= #[trigger] coord64(
                primitive_info@[k].centroid,
                d as int,
            ) <= hi by {
                assert(range[k - start] == primitive_info@[k]);
            }
            let k0 = choose|k: int|
                0 <= k < range.len() && #[trigger] coord64(range[k].centroid, d as int) == coord64(
                    centroid_bounds_of(range).p_min,
                    d as int,
                );
            let k1 = choose|k: int|
                0 <= k < range.len() && #[trigger] coord64(range[k].centroid, d as int) == coord64(
                    centroid_bounds_of(range).p_max,
                    d as int,
                );
            lemma_centroid_coords(range, primitives@.len() as int, k0, d as int);
            lemma_centroid_coords(range, primitives@.len() as int, k1, d as int);
            assert(range[k0] == primitive_info@[start + k0]);
            assert(range[k1] == primitive_info@[start + k1]);
        }
        if lo == hi {
            let node = make_leaf(primitives, primitive_info, start, end, bounds, ordered_prims);
            proof {
                lemma_leaf_encloses(primitives@, primitive_info@, start as int, end as int, node, old(ordered_prims)@, ordered_prims@);
                lemma_shaped_leaf(node, range, start as int, split_method, max_prims_per_node as int);
            }
            return (node, Ghost(primitive_info@.subrange(start as int, end as int)));
        }
        let ghost before = primitive_info@;
        let mid = match split_method {
            SplitMethod::Middle => {
                let m = middle_split(primitive_info, start, end, d, lo, hi);
                proof {
                    lemma_middle_rule(range, primitive_info@, start as int, end as int, m as int, surface_area_spec(bounds));
                }
                m
            },
            SplitMethod::EqualCounts => {
                proof {
                    assert(false);
                }
                vstd::pervasive::unreached()
            },
            SplitMethod::Sah => {
                if n_primitives <= 2 {
                    let m = two_split(primitive_info, start, end, d);
                    proof {
                        lemma_two_rule(range, primitive_info@, start as int, end as int, surface_area_spec(bounds));
                    }
                    m
                } else {
                    match sah_split(primitive_info, start, end, d, lo, hi, &bounds, max_prims_per_node) {
                        Some(m) => {
                            proof {
                                assert(sah_splits(
                                    range,
                                    d,
                                    lo,
                                    hi,
                                    surface_area_spec(bounds),
                                    max_prims_per_node as int,
                                ));
                                lemma_sah_rule(range, primitive_info@, start as int, end as int, m as int, surface_area_spec(bounds));
                            }
                            m
                        },
                        None => {
                            let node = make_leaf(
                                primitives,
                                primitive_info,
                                start,
                                end,
                                bounds,
                                ordered_prims,
                            );
                            proof {
                                lemma_leaf_encloses(
                                    primitives@,
                                    primitive_info@,
                                    start as int,
                                    end as int,
                                    node,
                                    old(ordered_prims)@,
                                    ordered_prims@,
                                );
                                lemma_shaped_leaf(node, range, start as int, split_method, max_prims_per_node as int);
                            }
                            return (node, Ghost(primitive_info@.subrange(start as int, end as int)));
                        },
                    }
                }
            },
        };
        let ghost split = primitive_info@;

        proof {
            lemma_multiset_keeps_ok(
                before.subrange(start as int, end as int),
                split.subrange(start as int, end as int),
                primitives@.len() as int,
            );
            lemma_all_ok_subrange(split, start as int, end as int, mid as int, end as int, primitives@.len() as int);
            lemma_all_ok_subrange(split, start as int, end as int, start as int, mid as int, primitives@.len() as int);
            lemma_bounds_match_multiset(
                before.subrange(start as int, end as int),
                split.subrange(start as int, end as int),
                primitives@,
            );
            lemma_bounds_match_subrange(split, start as int, end as int, mid as int, end as int, primitives@);
            lemma_bounds_match_subrange(split, start as int, end as int, start as int, mid as int, primitives@);
        }
        let ghost ordered_before = ordered_prims@;
        let (right, Ghost(gr)) = Self::build(
            primitives,
            primitive_info,
            mid,
            end,
            max_prims_per_node,
            total_nodes,
            ordered_prims,
            split_method,
        );
        let ghost after_right = primitive_info@;
        let ghost ordered_after_right = ordered_prims@;
        proof {
            broadcast use vstd::seq_lib::group_to_multiset_ensures;

            assert(gr.len() == gr.to_multiset().len());
            assert(split.subrange(mid as int, end as int).to_multiset().len() == end - mid);
            assert(ordered_prims@.len() == old(ordered_prims)@.len() + (end - mid));
            assert(primitive_info@.subrange(start as int, mid as int) =~= split.subrange(start as int, mid as int));
        }
        let (left, Ghost(gl)) = Self::build(
            primitives,
            primitive_info,
            start,
            mid,
            max_prims_per_node,
            total_nodes,
            ordered_prims,
            split_method,
        );
        let node = BuildNode::interior(dimension, Box::new(left), Box::new(right));
        proof {
            let fin = primitive_info@;
            assert(fin.subrange(mid as int, end as int) =~= after_right.subrange(mid as int, end as int));
            lemma_subrange_split(fin, start as int, mid as int, end as int);
            lemma_subrange_split(split, start as int, mid as int, end as int);
            vstd::seq_lib::lemma_multiset_commutative(gr, gl);
            assert(prims_of(primitives@, gr + gl) =~= prims_of(primitives@, gr) + prims_of(primitives@, gl));
            crate::bounds::lemma_union_encloses(left.bounds_of(), right.bounds_of(), node.bounds_of());
            assert forall|k: int| start <= k < end implies encloses(node.bounds_of(), #[trigger] fin[k].bounds) by {
                if k < mid {
                    crate::bounds::lemma_encloses_trans(node.bounds_of(), left.bounds_of(), fin[k].bounds);
                } else {
                    assert(fin[k] == after_right[k]);
                    crate::bounds::lemma_encloses_trans(node.bounds_of(), right.bounds_of(), fin[k].bounds);
                }
            }
            lemma_attains_union(
                left.bounds_of(),
                right.bounds_of(),
                node.bounds_of(),
                bounds_seq(fin.subrange(start as int, mid as int)),
                bounds_seq(fin.subrange(mid as int, end as int)),
            );
            assert(bounds_seq(fin.subrange(start as int, mid as int)) + bounds_seq(fin.subrange(mid as int, end as int))
                =~= bounds_seq(fin.subrange(start as int, end as int)));
            let lo_r = ordered_before.len() as int;
            let lo_l = lo_r + right.prim_count();
            let ord = ordered_prims@;
            lemma_node_encloses_frame(right, lo_r, ordered_after_right, ord);
            assert forall|j: int| lo_r <= j < lo_r + node.prim_count() implies encloses(
                node.bounds_of(),
                #[trigger] ord[j].world_bounds_spec(),
            ) by {
                if j < lo_l {
                    crate::bounds::lemma_encloses_trans(node.bounds_of(), right.bounds_of(), ord[j].world_bounds_spec());
                } else {
                    crate::bounds::lemma_encloses_trans(node.bounds_of(), left.bounds_of(), ord[j].world_bounds_spec());
                }
            }
        }
        proof {
            let fin = primitive_info@;
            assert(fin.subrange(start as int, end as int).to_multiset() == range.to_multiset());
            assert forall|k: int| 0 <= k < range.len() implies encloses(bounds, #[trigger] range[k].bounds) by {
                assert(range[k] == old(primitive_info)@[start + k]);
            }
            assert forall|k: int| 0 <= k < end - start implies encloses(
                node.bounds_of(),
                #[trigger] fin.subrange(start as int, end as int)[k].bounds,
            ) by {
                assert(fin.subrange(start as int, end as int)[k] == fin[start + k]);
            }
            lemma_same_box(bounds, node.bounds_of(), range, fin.subrange(start as int, end as int));
        }
        proof {
            let t = split.subrange(start as int, end as int);
            let c = mid - start;
            assert(t.subrange(0, c) =~= split.subrange(start as int, mid as int));
            assert(t.subrange(c, t.len() as int) =~= split.subrange(mid as int, end as int));
            lemma_shaped_interior(node, range, t, start as int, split_method, max_prims_per_node as int);
        }
        (node, Ghost(gr + gl))
    }
}

} // verus!

verus! {

/// Mapping two reorderings of each other gives reorderings of each other.
pub proof fn lemma_map_multiset<A, B>(a: Seq<A>, b: Seq<A>, f: spec_fn(A) -> B)
    requires
        a.to_multiset() == b.to_multiset(),
    ensures
        a.map_values(f).to_multiset() == b.map_values(f).to_multiset(),
    decreases a.len(),
{
    broadcast use vstd::seq_lib::group_to_multiset_ensures;
    broadcast use vstd::multiset::group_multiset_axioms;
    broadcast use vstd::multiset::group_multiset_properties;

    if a.len() == 0 {
        assert(b.len() == b.to_multiset().len());
        assert(a.map_values(f) =~= b.map_values(f));
    } else {
        let x = a.last();
        let a1 = a.drop_last();
        assert(a =~= a1.push(x));
        assert(a.to_multiset().count(x) > 0);
        assert(b.contains(x));
        let j = choose|j: int| 0 <= j < b.len() && b[j] == x;
        let b1 = b.remove(j);
        assert(b1.to_multiset() == b.to_multiset().remove(x));
        assert(a1.to_multiset() =~= b1.to_multiset());
        lemma_map_multiset(a1, b1, f);
        assert(a.map_values(f) =~= a1.map_values(f).push(f(x)));
        assert(b1.map_values(f) =~= b.map_values(f).remove(j));
        let bm = b.map_values(f);
        assert(bm[j] == f(x));
        assert(bm.remove(j).to_multiset() == bm.to_multiset().remove(f(x)));
        assert(bm.contains(f(x)));
        assert(bm.to_multiset().count(f(x)) > 0);
        assert(bm.to_multiset() =~= bm.to_multiset().remove(f(x)).insert(f(x)));
    }
}

} // verus!

verus! {

/// The world bounds of the primitives.
pub open spec fn world_bounds_seq<P: Primitive>(prims: Seq<Arc<P>>) -> Seq<Bounds3<i32>> {
    Seq::new(prims.len(), |i: int| prims[i].world_bounds_spec())
}

/// The infos that the build starts from: primitive `i` with its world bounds.
pub open spec fn infos_of<P: Primitive>(prims: Seq<Arc<P>>) -> Seq<PrimitiveInfo> {
    Seq::new(
        prims.len(),
        |i: int|
            PrimitiveInfo {
                prim_number: i as usize,
                centroid: doubled_center(prims[i].world_bounds_spec()),
                bounds: prims[i].world_bounds_spec(),
            },
    )
}

/// `nodes` is the depth-first layout of a tree whose leaves cover the
/// ordered primitives `prims` and whose every node's bounds enclose the
/// world bounds of the primitives beneath it.
pub open spec fn layout_encloses<P: Primitive>(nodes: Seq<LNode>, prims: Seq<Arc<P>>) -> bool {
    exists|root: BuildNode|
        #![trigger flat_ok(nodes, 0, root)]
        {
            &&& flat_ok(nodes, 0, root)
            &&& root.covers(0)
            &&& root.prim_count() == prims.len()
            &&& node_encloses(root, 0, prims)
        }
}

/// `nodes` is the depth-first layout of the tree that the build makes of the
/// primitives `prims`, each taken with its world bounds, in the sense of
/// `shaped`.
pub open spec fn layout_shaped<P: Primitive>(nodes: Seq<LNode>, prims: Seq<Arc<P>>, method: SplitMethod, max_prims: int) -> bool {
    exists|root: BuildNode|
        #![trigger flat_ok(nodes, 0, root)]
        flat_ok(nodes, 0, root) && shaped(root, infos_of(prims), 0, method, max_prims)
}

/// `nodes` is exactly the depth-first layout of a tree whose leaves cover
/// the ordered primitives `prims` without gaps or overlap and whose every
/// node's bounds enclose the world bounds of the primitives beneath it.
pub open spec fn layout_complete<P: Primitive>(nodes: Seq<LNode>, prims: Seq<Arc<P>>) -> bool {
    exists|root: BuildNode|
        #![trigger flat_ok(nodes, 0, root)]
        {
            &&& flat_ok(nodes, 0, root)
            &&& nodes.len() == root.node_count()
            &&& root.covers(0)
            &&& root.prim_count() == prims.len()
            &&& node_encloses(root, 0, prims)
        }
}

/// `nodes` is the depth-first layout of a tree whose leaves cover the
/// ordered primitives `0..n_prims` without gaps or overlap.
pub open spec fn tree_layout(nodes: Seq<LNode>, n_prims: int) -> bool {
    exists|root: BuildNode|
        #![trigger flat_ok(nodes, 0, root)]
        {
            &&& flat_ok(nodes, 0, root)
            &&& nodes.len() == root.node_count()
            &&& root.covers(0)
            &&& root.prim_count() == n_prims
        }
}

proof fn lemma_root_bounds(nodes: Seq<LNode>, root: BuildNode)
    requires
        flat_ok(nodes, 0, root),
    ensures
        nodes.len() > 0,
        nodes[0].bounds == root.bounds_of(),
{
    lemma_node_count_pos(root);
}

impl<P: Primitive> Bvh<P> {
    #[verifier::type_invariant]
    closed spec fn inv(&self) -> bool {
        &&& self.nodes.len() > 0
        &&& layout_complete(self.nodes@, self.primitives@)
    }

    /// The cap on primitives per leaf that the BVH was built with.
    pub closed spec fn max_prims_per_node(&self) -> usize {
        self.max_prims_per_node
    }

    /// The primitives in the order the leaves refer to them.
    pub closed spec fn primitives(&self) -> Seq<Arc<P>> {
        self.primitives@
    }

    /// The nodes of the BVH in depth-first order.
    pub closed spec fn nodes(&self) -> Seq<LNode> {
        self.nodes@
    }

    /// The nodes of the BVH in depth-first order.
    pub fn get_nodes(&self) -> (r: &Vec<LNode>)
        ensures
            r@ == self.nodes(),
    {
        &self.nodes
    }

    /// The primitives in the order the leaves refer to them.
    pub fn get_primitives(&self) -> (r: &Vec<Arc<P>>)
        ensures
            r@ == self.primitives(),
    {
        &self.primitives
    }

    /// The cap on primitives per leaf.
    pub fn get_max_prims_per_node(&self) -> (r: usize)
        ensures
            r == self.max_prims_per_node(),
    {
        self.max_prims_per_node
    }

    /// Appends the nodes of the tree rooted at `node` to `nodes` in
    /// depth-first order and returns the offset of `node` among them.
    pub fn flatten(node: &BuildNode, nodes: &mut Vec<LNode>) -> (r: usize)
        requires
            old(nodes).len() + node.node_count() <= usize::MAX,
        ensures
            r == old(nodes).len(),
            final(nodes).len() == old(nodes).len() + node.node_count(),
            forall|k: int| 0 <= k < old(nodes).len() ==> #[trigger] final(nodes)@[k] == old(nodes)@[k],
            flat_ok(final(nodes)@, r as int, *node),
    {
        flatten_nodes(node, nodes)
    }
}

impl<P: Primitive> Bvh<P> {
    /// Builds a BVH over `prims` with at most `max_prims_per_node` primitives
    /// per leaf (capped at 255), splitting nodes by `split_method`.
    pub fn new(max_prims_per_node: usize, prims: &[Arc<P>], split_method: SplitMethod) -> (r: Bvh<P>)
        requires
            prims@.len() > 0,
            prims@.len() <= isize::MAX,
            split_method is Sah ==> prims@.len() <= u32::MAX,
            split_method is EqualCounts ==> (prims@.len() == 1 || centroids_coincide(
                infos_of(prims@),
            )),
        ensures
            r.max_prims_per_node() == if max_prims_per_node < 255 {
                max_prims_per_node
            } else {
                255
            },
            r.primitives().to_multiset() == prims@.to_multiset(),
            tree_layout(r.nodes(), prims@.len() as int),
            layout_encloses(r.nodes(), r.primitives()),
            faces_attained(r.nodes()[0].bounds, world_bounds_seq(prims@)),
            r.nodes()[0].bounds == union_all(world_bounds_seq(prims@)),
            layout_shaped(r.nodes(), prims@, split_method, max_prims_per_node as int),
            (r.nodes()[0].data is Leaf) == leaf_rule(
                infos_of(prims@),
                split_method,
                max_prims_per_node as int,
                surface_area_spec(r.nodes()[0].bounds),
            ),
            r.nodes()[0].data matches LNodeData::Interior { axis, .. } ==> axis == maximum_extent_spec(
                centroid_bounds_of(infos_of(prims@)),
            ),
            forall|i: int|
                0 <= i < prims@.len() ==> encloses(
                    r.nodes()[0].bounds,
                    #[trigger] prims@[i].world_bounds_spec(),
                ),
    {
        let n = prims.len();
        // Get bounds info
        let mut primitive_info: Vec<PrimitiveInfo> = Vec::with_capacity(n);
        let mut i: usize = 0;
        while i < n
            invariant
                i <= n == prims@.len(),
                primitive_info@ == infos_of(prims@).take(i as int),
            decreases n - i,
        {
            let info = PrimitiveInfo::new(i, prims[i].world_bounds());
            primitive_info.push(info);
            proof {
                assert(primitive_info@ =~= infos_of(prims@).take(i + 1));
            }
            i += 1;
        }
        let ghost infos = primitive_info@;
        proof {
            assert(infos =~= infos_of(prims@));
            assert(infos.subrange(0, n as int) =~= infos);
        }
        // Build the tree
        let mut total_nodes: usize = 0;
        let mut ordered_prims: Vec<Arc<P>> = Vec::with_capacity(n);
        let (root, Ghost(g)) = Self::build(
            prims,
            &mut primitive_info,
            0,
            n,
            max_prims_per_node,
            &mut total_nodes,
            &mut ordered_prims,
            split_method,
        );
        // Flatten it
        let mut nodes: Vec<LNode> = Vec::with_capacity(total_nodes);
        Self::flatten(&root, &mut nodes);
        proof {
            lemma_shaped_root(root, infos.subrange(0, n as int), 0, split_method, max_prims_per_node as int);
            lemma_root_bounds(nodes@, root);
            assert(nodes@.len() == total_nodes);
            let fin = primitive_info@;
            assert(fin.subrange(0, n as int) =~= fin);
            let f = |pi: PrimitiveInfo| prims@[pi.prim_number as int];
            lemma_map_multiset(g, infos, f);
            assert(prims_of(prims@, infos) =~= prims@);
            assert(ordered_prims@ =~= prims_of(prims@, g));
            assert forall|i: int| 0 <= i < prims@.len() implies encloses(
                nodes@[0].bounds,
                #[trigger] prims@[i].world_bounds_spec(),
            ) by {
                let k = lemma_multiset_finds(infos, fin, i);
                assert(fin[k] == infos[i]);
                assert(infos[i] == infos_of(prims@)[i]);
                assert(infos[i].bounds == prims@[i].world_bounds_spec());
                assert(encloses(root.bounds_of(), fin[k].bounds));
            }
        }
        proof {
            assert(flat_ok(nodes@, 0, root));
            ordered_prims@.to_multiset_ensures();
            prims@.to_multiset_ensures();
            assert(ordered_prims@.len() == n);
            assert(tree_layout(nodes@, ordered_prims@.len() as int));
            assert(layout_encloses(nodes@, ordered_prims@));
            assert(layout_complete(nodes@, ordered_prims@));
            assert(nodes@[0].bounds == root.bounds_of());
            assert((nodes@[0].data is Leaf) == (root is Leaf));
            let fin = primitive_info@;
            assert(fin.subrange(0, n as int) =~= fin);
            let wb = world_bounds_seq(prims@);
            let fb = bounds_seq(fin.subrange(0, n as int));
            assert(bounds_seq(infos.subrange(0, n as int)) =~= wb);
            assert(infos.subrange(0, n as int) =~= infos_of(prims@));
            assert(flat_ok(nodes@, 0, root) && shaped(root, infos_of(prims@), 0, split_method, max_prims_per_node as int));
            assert forall|axis: int, upper: bool| 0 <= axis < 3 implies #[trigger] attains(nodes@[0].bounds, wb, axis, upper) by {
                assert(attains(root.bounds_of(), fb, axis, upper));
                let k = choose|k: int| 0 <= k < fb.len() && #[trigger] face(fb[k], axis, upper) == face(root.bounds_of(), axis, upper);
                assert(fb[k] == fin[k].bounds);
                let j = lemma_multiset_finds(fin, infos, k);
                assert(infos[j] == infos_of(prims@)[j]);
                assert(wb[j] == fin[k].bounds);
            }
        }
        let bvh = Bvh {
            max_prims_per_node: crate::maths::min(max_prims_per_node, 255usize),
            primitives: ordered_prims,
            nodes,
        };
        bvh
    }
}

impl<P: Primitive> Primitive for Bvh<P> {
    open spec fn world_bounds_spec(&self) -> Bounds3<i32> {
        self.nodes()[0].bounds
    }

    /// The bounds of the whole hierarchy: those of its root.
    fn world_bounds(&self) -> (r: Bounds3<i32>) {
        proof {
            use_type_invariant(self);
        }
        self.nodes[0].bounds
    }
}

} // verus!

verus! {

/// Some primitive can be reached from node `k` of `nodes`: every box on the
/// way down from `k` passes `box_ok`, and a primitive of the leaf reached
/// passes `prim_ok`.
pub open spec fn reaches_hit(
    nodes: Seq<LNode>,
    k: int,
    box_ok: spec_fn(int) -> bool,
    prim_ok: spec_fn(int) -> bool,
) -> bool
    decreases nodes.len() - k,
{
    if 0 <= k < nodes.len() && box_ok(k) {
        match nodes[k].data {
            LNodeData::Leaf { primitives_offset, num_prims } => exists|i: int|
                primitives_offset <= i < primitives_offset + num_prims && #[trigger] prim_ok(i),
            LNodeData::Interior { second_child_offset, .. } => reaches_hit(
                nodes,
                k + 1,
                box_ok,
                prim_ok,
            ) || (k < second_child_offset < nodes.len() && reaches_hit(
                nodes,
                second_child_offset as int,
                box_ok,
                prim_ok,
            )),
        }
    } else {
        false
    }
}

/// Node `k`'s box test may answer `answer`.
pub open spec fn box_may<B: Fn(&Bounds3<i32>) -> bool>(
    box_hit: B,
    nodes: Seq<LNode>,
    answer: bool,
) -> spec_fn(int) -> bool {
    |k: int| call_ensures(box_hit, (&nodes[k].bounds,), answer)
}

/// Node `k`'s box test cannot answer `false`.
pub open spec fn box_never_misses<B: Fn(&Bounds3<i32>) -> bool>(
    box_hit: B,
    nodes: Seq<LNode>,
) -> spec_fn(int) -> bool {
    |k: int| !call_ensures(box_hit, (&nodes[k].bounds,), false)
}

/// The test of primitive `i` may answer `answer`.
pub open spec fn prim_may<P, H: Fn(&Arc<P>) -> bool>(
    prim_hit: H,
    prims: Seq<Arc<P>>,
    answer: bool,
) -> spec_fn(int) -> bool {
    |i: int| call_ensures(prim_hit, (&prims[i],), answer)
}

/// The test of primitive `i` cannot answer `false`.
pub open spec fn prim_never_misses<P, H: Fn(&Arc<P>) -> bool>(
    prim_hit: H,
    prims: Seq<Arc<P>>,
) -> spec_fn(int) -> bool {
    |i: int| !call_ensures(prim_hit, (&prims[i],), false)
}

/// The number of nodes in the subtrees still to be visited.
spec fn pending_count(s: Seq<BuildNode>) -> nat
    decreases s.len(),
{
    if s.len() == 0 {
        0
    } else {
        pending_count(s.drop_last()) + s.last().node_count()
    }
}

proof fn lemma_covers_pos(node: BuildNode, lo: int)
    requires
        node.covers(lo),
    ensures
        node.prim_count() >= 1,
    decreases node,
{
    if let BuildNode::Interior { children, .. } = node {
        lemma_covers_pos(*children.1, lo);
        lemma_covers_pos(*children.0, lo + children.1.prim_count());
    }
}

/// Popping the last entry of a stack of nodes to visit: a node of the old
/// stack from which a hit is reached is the popped one or one left.
proof fn lemma_pop_keeps_reach(
    nodes: Seq<LNode>,
    old_stack: Seq<usize>,
    new_stack: Seq<usize>,
    top: usize,
    bf: spec_fn(int) -> bool,
    pf: spec_fn(int) -> bool,
)
    requires
        old_stack.len() > 0,
        new_stack == old_stack.drop_last(),
        top == old_stack.last(),
    ensures
        (exists|j: int| 0 <= j < old_stack.len() && reaches_hit(nodes, #[trigger] old_stack[j] as int, bf, pf))
            ==> (reaches_hit(nodes, top as int, bf, pf) || exists|j: int|
            0 <= j < new_stack.len() && reaches_hit(nodes, #[trigger] new_stack[j] as int, bf, pf)),
{
    if exists|j: int| 0 <= j < old_stack.len() && reaches_hit(nodes, #[trigger] old_stack[j] as int, bf, pf) {
        let j = choose|j: int| 0 <= j < old_stack.len() && reaches_hit(nodes, #[trigger] old_stack[j] as int, bf, pf);
        if j < new_stack.len() {
            assert(new_stack[j] == old_stack[j]);
        }
    }
}

/// Pushing an entry keeps every node of the stack on it.
proof fn lemma_push_keeps_reach(
    nodes: Seq<LNode>,
    old_stack: Seq<usize>,
    new_stack: Seq<usize>,
    x: usize,
    bf: spec_fn(int) -> bool,
    pf: spec_fn(int) -> bool,
)
    requires
        new_stack == old_stack.push(x),
    ensures
        (exists|j: int| 0 <= j < old_stack.len() && reaches_hit(nodes, #[trigger] old_stack[j] as int, bf, pf))
            ==> exists|j: int| 0 <= j < new_stack.len() && reaches_hit(nodes, #[trigger] new_stack[j] as int, bf, pf),
        reaches_hit(nodes, x as int, bf, pf) ==> exists|j: int|
            0 <= j < new_stack.len() && reaches_hit(nodes, #[trigger] new_stack[j] as int, bf, pf),
{
    if exists|j: int| 0 <= j < old_stack.len() && reaches_hit(nodes, #[trigger] old_stack[j] as int, bf, pf) {
        let j = choose|j: int| 0 <= j < old_stack.len() && reaches_hit(nodes, #[trigger] old_stack[j] as int, bf, pf);
        assert(new_stack[j] == old_stack[j]);
    }
    if reaches_hit(nodes, x as int, bf, pf) {
        assert(new_stack[old_stack.len() as int] == x);
    }
}

/// A subtree still to be visited: laid out from `offset`, its leaves covering
/// the primitives from `lo` on, within the `n` primitives.
pub open spec fn pending_ok(nodes: Seq<LNode>, offset: int, node: BuildNode, lo: int, n: int) -> bool {
    &&& flat_ok(nodes, offset, node)
    &&& node.covers(lo)
    &&& 0 <= lo
    &&& lo + node.prim_count() <= n
}

impl<P: Primitive> Bvh<P> {
    /// Whether some primitive is hit: walks the hierarchy depth first,
    /// skipping the subtree of every node whose box `box_hit` rejects, visiting
    /// first the child on the near side along the node's split axis
    /// (`dir_is_neg`), and stops at the first primitive that `prim_hit`
    /// accepts.
    pub fn intersect_p<B, H>(&self, dir_is_neg: [bool; 3], box_hit: B, prim_hit: H) -> (r: bool) where
        B: Fn(&Bounds3<i32>) -> bool,
        H: Fn(&Arc<P>) -> bool,

        requires
            forall|b: &Bounds3<i32>| call_requires(box_hit, (b,)),
            forall|p: &Arc<P>| call_requires(prim_hit, (p,)),
        ensures
            r ==> reaches_hit(
                self.nodes(),
                0,
                box_may(box_hit, self.nodes(), true),
                prim_may(prim_hit, self.primitives(), true),
            ),
            !r ==> !reaches_hit(
                self.nodes(),
                0,
                box_never_misses(box_hit, self.nodes()),
                prim_never_misses(prim_hit, self.primitives()),
            ),
    {
        proof {
            use_type_invariant(self);
        }
        let ghost nodes = self.nodes@;
        let ghost n = self.primitives@.len() as int;
        let ghost bt = box_may(box_hit, nodes, true);
        let ghost pt = prim_may(prim_hit, self.primitives@, true);
        let ghost bf = box_never_misses(box_hit, nodes);
        let ghost pf = prim_never_misses(prim_hit, self.primitives@);
        let ghost root = choose|root: BuildNode|
            #![trigger flat_ok(nodes, 0, root)]
            {
                &&& flat_ok(nodes, 0, root)
                &&& nodes.len() == root.node_count()
                &&& root.covers(0)
                &&& root.prim_count() == n
                &&& node_encloses(root, 0, self.primitives@)
            };
        let n_nodes = self.nodes.len();
        let n_prims = self.primitives.len();
        let mut stack: Vec<usize> = Vec::new();
        let mut current: usize = 0;
        let ghost mut cur_node = root;
        let ghost mut cur_lo: int = 0;
        let ghost mut sub: Seq<BuildNode> = Seq::empty();
        let ghost mut sub_lo: Seq<int> = Seq::empty();
        loop
            invariant
                nodes == self.nodes@,
                n == self.primitives@.len(),
                n_nodes == nodes.len(),
                n_prims == n,
                bt == box_may(box_hit, nodes, true),
                pt == prim_may(prim_hit, self.primitives@, true),
                bf == box_never_misses(box_hit, nodes),
                pf == prim_never_misses(prim_hit, self.primitives@),
                forall|b: &Bounds3<i32>| call_requires(box_hit, (b,)),
                forall|p: &Arc<P>| call_requires(prim_hit, (p,)),
                pending_ok(nodes, current as int, cur_node, cur_lo, n),
                sub.len() == stack.len(),
                sub_lo.len() == stack.len(),
                forall|j: int|
                    0 <= j < stack.len() ==> pending_ok(
                        nodes,
                        #[trigger] stack@[j] as int,
                        sub[j],
                        sub_lo[j],
                        n,
                    ),
                reaches_hit(nodes, current as int, bt, pt) ==> reaches_hit(nodes, 0, bt, pt),
                forall|j: int|
                    0 <= j < stack.len() && reaches_hit(nodes, #[trigger] stack@[j] as int, bt, pt)
                        ==> reaches_hit(nodes, 0, bt, pt),
                reaches_hit(nodes, 0, bf, pf) ==> (reaches_hit(nodes, current as int, bf, pf) || exists|
                    j: int,
                |
                    0 <= j < stack.len() && reaches_hit(nodes, #[trigger] stack@[j] as int, bf, pf)),
            ensures
                !reaches_hit(nodes, 0, bf, pf),
            decreases cur_node.node_count() + pending_count(sub),
        {
            proof {
                lemma_node_count_pos(cur_node);
            }
            let node = self.nodes[current];
            if box_hit(&node.bounds) {
                match node.data {
                    LNodeData::Leaf { primitives_offset, num_prims } => {
                        proof {
                            assert(cur_node is Leaf);
                        }
                        let mut i: usize = 0;
                        while i < num_prims
                            invariant
                                0 <= i <= num_prims,
                                primitives_offset + num_prims <= n_prims,
                                n_prims == self.primitives@.len(),
                                nodes == self.nodes@,
                                0 <= current < nodes.len(),
                                nodes[current as int].data == (LNodeData::Leaf { primitives_offset, num_prims }),
                                call_ensures(box_hit, (&nodes[current as int].bounds,), true),
                                bt == box_may(box_hit, nodes, true),
                                pt == prim_may(prim_hit, self.primitives@, true),
                                reaches_hit(nodes, current as int, bt, pt) ==> reaches_hit(nodes, 0, bt, pt),
                                forall|p: &Arc<P>| call_requires(prim_hit, (p,)),
                                pf == prim_never_misses(prim_hit, self.primitives@),
                                forall|j: int|
                                    primitives_offset <= j < primitives_offset + i ==> !#[trigger] pf(j),
                            decreases num_prims - i,
                        {
                            if prim_hit(&self.primitives[primitives_offset + i]) {
                                proof {
                                    assert(pt(primitives_offset + i));
                                    assert(bt(current as int));
                                    assert(reaches_hit(nodes, current as int, bt, pt));
                                }
                                return true;
                            }
                            i += 1;
                        }
                        proof {
                            assert(!reaches_hit(nodes, current as int, bf, pf));
                        }
                        if stack.len() == 0 {
                            break;
                        }
                        let ghost old_stack = stack@;
                        let top = stack.pop().unwrap();
                        proof {
                            let last = sub.len() - 1;
                            lemma_pop_keeps_reach(nodes, old_stack, stack@, top, bf, pf);
                            cur_node = sub[last];
                            cur_lo = sub_lo[last];
                            sub = sub.drop_last();
                            sub_lo = sub_lo.drop_last();
                        }
                        current = top;
                    },
                    LNodeData::Interior { second_child_offset, axis } => {
                        let ghost c0 = *cur_node->children.0;
                        let ghost c1 = *cur_node->children.1;
                        proof {
                            assert(cur_node is Interior);
                            lemma_node_count_pos(c0);
                            lemma_node_count_pos(c1);
                            lemma_covers_pos(c1, cur_lo);
                            lemma_covers_pos(c0, cur_lo + c1.prim_count());
                            assert(pending_count(sub.push(c0)) == pending_count(sub) + c0.node_count())
                                by {
                                assert(sub.push(c0).drop_last() =~= sub);
                            }
                            assert(pending_count(sub.push(c1)) == pending_count(sub) + c1.node_count())
                                by {
                                assert(sub.push(c1).drop_last() =~= sub);
                            }
                        }
                        let axis_num = axis.to_index();
                        let ghost old_stack = stack@;
                        let ghost old_cur = current as int;
                        proof {
                            assert(reaches_hit(nodes, old_cur, bf, pf) ==> (reaches_hit(nodes, old_cur + 1, bf, pf)
                                || reaches_hit(nodes, second_child_offset as int, bf, pf)));
                        }
                        if dir_is_neg[axis_num] {
                            stack.push(current + 1);
                            proof {
                                lemma_push_keeps_reach(nodes, old_stack, stack@, (old_cur + 1) as usize, bf, pf);
                                sub = sub.push(c0);
                                sub_lo = sub_lo.push(cur_lo + c1.prim_count());
                                cur_node = c1;
                            }
                            current = second_child_offset;
                        } else {
                            stack.push(second_child_offset);
                            proof {
                                lemma_push_keeps_reach(nodes, old_stack, stack@, second_child_offset, bf, pf);
                                sub = sub.push(c1);
                                sub_lo = sub_lo.push(cur_lo);
                                cur_node = c0;
                                cur_lo = cur_lo + c1.prim_count();
                            }
                            current = current + 1;
                        }
                    },
                }
            } else {
                proof {
                    assert(!reaches_hit(nodes, current as int, bf, pf));
                }
                if stack.len() == 0 {
                    break;
                }
                let ghost old_stack = stack@;
                let top = stack.pop().unwrap();
                proof {
                    let last = sub.len() - 1;
                    lemma_pop_keeps_reach(nodes, old_stack, stack@, top, bf, pf);
                    cur_node = sub[last];
                    cur_lo = sub_lo[last];
                    sub = sub.drop_last();
                    sub_lo = sub_lo.drop_last();
                }
                current = top;
            }
        }
        false
    }
}

} // verus!

verus! {

/// The distance of a hit.
pub open spec fn hit_dist<T>(h: Option<(T, i64)>) -> i64 {
    match h {
        Some((_, t)) => t,
        None => 0,
    }
}

/// The primitive test acts on `prims` as a ray test does: a hit lies no
/// farther than the limit it was asked under, and a hit found under one limit
/// is what the test answers, the same, under every limit that still reaches
/// it.
pub open spec fn prims_ray_like<P, T, H: Fn(&Arc<P>, i64) -> Option<(T, i64)>>(
    prim_hit: H,
    prims: Seq<Arc<P>>,
) -> bool {
    &&& forall|i: int, lim: i64, r: Option<(T, i64)>|
        0 <= i < prims.len() && #[trigger] call_ensures(prim_hit, (&prims[i], lim), r) && r is Some ==> hit_dist(r)
            <= lim
    &&& forall|i: int, l1: i64, l2: i64, r1: Option<(T, i64)>, r2: Option<(T, i64)>|
        #![trigger call_ensures(prim_hit, (&prims[i], l1), r1), call_ensures(prim_hit, (&prims[i], l2), r2)]
        0 <= i < prims.len() && call_ensures(prim_hit, (&prims[i], l1), r1) && call_ensures(
            prim_hit,
            (&prims[i], l2),
            r2,
        ) && r1 is Some && hit_dist(r1) <= l2 ==> r2 == r1
}

/// A box miss under a limit rules out a hit within that limit on every
/// primitive of `prims` whose world bounds the box encloses, as the test of a
/// ray against a box does.
pub open spec fn boxes_ray_like<P: Primitive, T, B: Fn(&Bounds3<i32>, i64) -> bool, H: Fn(&Arc<P>, i64) -> Option<(T, i64)>>(
    box_hit: B,
    prim_hit: H,
    prims: Seq<Arc<P>>,
) -> bool {
    forall|b: Bounds3<i32>, lim: i64, i: int, l: i64, r: Option<(T, i64)>|
        #![trigger call_ensures(box_hit, (&b, lim), false), call_ensures(prim_hit, (&prims[i], l), r)]
        0 <= i < prims.len() && call_ensures(box_hit, (&b, lim), false) && encloses(
            b,
            prims[i].world_bounds_spec(),
        ) && call_ensures(prim_hit, (&prims[i], l), r) && r is Some ==> hit_dist(r) > lim
}

/// Primitive `p` is hit at distance `t` with the answer `x`: under every
/// limit that reaches `t` the test answers exactly that hit.
pub open spec fn hit_at<P, T, H: Fn(&Arc<P>, i64) -> Option<(T, i64)>>(prim_hit: H, p: Arc<P>, x: T, t: i64) -> bool {
    forall|l: i64, r: Option<(T, i64)>| t <= l && #[trigger] call_ensures(prim_hit, (&p, l), r) ==> r == Some((x, t))
}

/// Primitive `i` is dealt with: every hit that the test can give for it
/// under the first limit `lim0` lies no nearer than the current limit `cur`,
/// and a hit has been found.
spec fn settled<P, T, H: Fn(&Arc<P>, i64) -> Option<(T, i64)>>(
    prim_hit: H,
    prims: Seq<Arc<P>>,
    lim0: i64,
    i: int,
    found: bool,
    cur: i64,
) -> bool {
    forall|r: Option<(T, i64)>|
        #[trigger] call_ensures(prim_hit, (&prims[i], lim0), r) && r is Some ==> found && cur <= hit_dist(r)
}

/// Primitive `i` lies in the subtree still being visited or in one still on
/// the stack.
spec fn in_pending(i: int, cur_lo: int, cur_node: BuildNode, sub: Seq<BuildNode>, sub_lo: Seq<int>) -> bool {
    ||| cur_lo <= i < cur_lo + cur_node.prim_count()
    ||| exists|j: int| 0 <= j < sub.len() && sub_lo[j] <= i < sub_lo[j] + (#[trigger] sub[j]).prim_count()
}

/// A primitive that the test misses under the current limit is dealt with.
proof fn lemma_miss_settles<P, T, H: Fn(&Arc<P>, i64) -> Option<(T, i64)>>(
    prim_hit: H,
    prims: Seq<Arc<P>>,
    lim0: i64,
    i: int,
    found: bool,
    cur: i64,
)
    requires
        prims_ray_like(prim_hit, prims),
        0 <= i < prims.len(),
        call_ensures(prim_hit, (&prims[i], cur), None::<(T, i64)>),
        !found ==> cur == lim0,
    ensures
        settled(prim_hit, prims, lim0, i, found, cur),
{
    assert forall|r: Option<(T, i64)>|
        #[trigger] call_ensures(prim_hit, (&prims[i], lim0), r) && r is Some implies found && cur <= hit_dist(r) by {
        assert(hit_dist(r) <= lim0);
        if hit_dist(r) <= cur {
            assert(call_ensures(prim_hit, (&prims[i], cur), None::<(T, i64)>));
        }
    }
}

/// A primitive inside a box that the test misses under the current limit is
/// dealt with.
proof fn lemma_box_miss_settles<P: Primitive, T, B: Fn(&Bounds3<i32>, i64) -> bool, H: Fn(&Arc<P>, i64) -> Option<(T, i64)>>(
    box_hit: B,
    prim_hit: H,
    prims: Seq<Arc<P>>,
    b: Bounds3<i32>,
    lim0: i64,
    i: int,
    found: bool,
    cur: i64,
)
    requires
        prims_ray_like(prim_hit, prims),
        boxes_ray_like(box_hit, prim_hit, prims),
        0 <= i < prims.len(),
        call_ensures(box_hit, (&b, cur), false),
        encloses(b, prims[i].world_bounds_spec()),
        !found ==> cur == lim0,
    ensures
        settled(prim_hit, prims, lim0, i, found, cur),
{
    assert forall|r: Option<(T, i64)>|
        #[trigger] call_ensures(prim_hit, (&prims[i], lim0), r) && r is Some implies found && cur <= hit_dist(r) by {
        assert(hit_dist(r) <= lim0);
        assert(hit_dist(r) > cur);
    }
}

/// A hit that the test gives under the current limit, itself within the
/// first limit, lies within the current limit, is the hit of its primitive
/// at that distance, and deals with that primitive.
proof fn lemma_hit_settles<P, T, H: Fn(&Arc<P>, i64) -> Option<(T, i64)>>(
    prim_hit: H,
    prims: Seq<Arc<P>>,
    lim0: i64,
    i: int,
    cur: i64,
    x: T,
    t: i64,
)
    requires
        prims_ray_like(prim_hit, prims),
        0 <= i < prims.len(),
        call_ensures(prim_hit, (&prims[i], cur), Some((x, t))),
        cur <= lim0,
    ensures
        t <= cur,
        hit_at(prim_hit, prims[i], x, t),
        settled(prim_hit, prims, lim0, i, true, t),
{
    assert(hit_dist(Some((x, t))) <= cur);
    assert forall|l: i64, r: Option<(T, i64)>|
        t <= l && #[trigger] call_ensures(prim_hit, (&prims[i], l), r) implies r == Some((x, t)) by {
        assert(call_ensures(prim_hit, (&prims[i], cur), Some((x, t))));
    }
}

/// Popping the stack: a primitive pending before and not after lay in the
/// subtree just visited.
proof fn lemma_pop_pending(i: int, cur_lo: int, cur_node: BuildNode, sub: Seq<BuildNode>, sub_lo: Seq<int>)
    requires
        sub.len() > 0,
        sub_lo.len() == sub.len(),
        in_pending(i, cur_lo, cur_node, sub, sub_lo),
        !in_pending(i, sub_lo.last(), sub.last(), sub.drop_last(), sub_lo.drop_last()),
    ensures
        cur_lo <= i < cur_lo + cur_node.prim_count(),
{
    if !(cur_lo <= i < cur_lo + cur_node.prim_count()) {
        let j = choose|j: int| 0 <= j < sub.len() && sub_lo[j] <= i < sub_lo[j] + (#[trigger] sub[j]).prim_count();
        if j < sub.len() - 1 {
            assert(sub.drop_last()[j] == sub[j]);
            assert(sub_lo.drop_last()[j] == sub_lo[j]);
        }
    }
}

/// Descending into one child and pushing the other keeps every pending
/// primitive pending.
proof fn lemma_push_pending(
    i: int,
    lo: int,
    node: BuildNode,
    sub: Seq<BuildNode>,
    sub_lo: Seq<int>,
    first: bool,
)
    requires
        node is Interior,
        sub_lo.len() == sub.len(),
        in_pending(i, lo, node, sub, sub_lo),
    ensures
        ({
            let c0 = *node->children.0;
            let c1 = *node->children.1;
            if first {
                in_pending(i, lo + c1.prim_count(), c0, sub.push(c1), sub_lo.push(lo))
            } else {
                in_pending(i, lo, c1, sub.push(c0), sub_lo.push(lo + c1.prim_count()))
            }
        }),
{
    let c0 = *node->children.0;
    let c1 = *node->children.1;
    let n = sub.len() as int;
    if first {
        let s2 = sub.push(c1);
        let l2 = sub_lo.push(lo);
        if lo <= i < lo + c1.prim_count() {
            assert(s2[n] == c1);
            assert(l2[n] == lo);
        } else if !(lo + c1.prim_count() <= i < lo + c1.prim_count() + c0.prim_count()) {
            let j = choose|j: int| 0 <= j < sub.len() && sub_lo[j] <= i < sub_lo[j] + (#[trigger] sub[j]).prim_count();
            assert(s2[j] == sub[j]);
            assert(l2[j] == sub_lo[j]);
        }
    } else {
        let s2 = sub.push(c0);
        let l2 = sub_lo.push(lo + c1.prim_count());
        if lo + c1.prim_count() <= i < lo + c1.prim_count() + c0.prim_count() {
            assert(s2[n] == c0);
            assert(l2[n] == lo + c1.prim_count());
        } else if !(lo <= i < lo + c1.prim_count()) {
            let j = choose|j: int| 0 <= j < sub.len() && sub_lo[j] <= i < sub_lo[j] + (#[trigger] sub[j]).prim_count();
            assert(s2[j] == sub[j]);
            assert(l2[j] == sub_lo[j]);
        }
    }
}

impl<P: Primitive> Bvh<P> {
    /// The nearest hit under the ray limit `t_max`: walks the hierarchy depth
    /// first, visiting first the child on the near side along each node's
    /// split axis (`dir_is_neg`), skipping the subtree of every node whose box
    /// `box_hit` rejects under the current limit, and testing each primitive
    /// of a leaf under the current limit with `prim_hit`. Each hit found
    /// becomes the result and its distance the new limit. Returns the hit, if
    /// any, and the final limit.
    ///
    /// When both tests act as ray tests do (`prims_ray_like`,
    /// `boxes_ray_like`), the result is a hit exactly when some primitive is
    /// hit under `t_max`, and then it is a hit of least distance, whose
    /// distance is the final limit.
    pub fn intersect<T, B, H>(&self, dir_is_neg: [bool; 3], t_max: i64, box_hit: B, prim_hit: H) -> (r: (
        Option<T>,
        i64,
    )) where
        B: Fn(&Bounds3<i32>, i64) -> bool,
        H: Fn(&Arc<P>, i64) -> Option<(T, i64)>,

        requires
            forall|b: &Bounds3<i32>, l: i64| call_requires(box_hit, (b, l)),
            forall|p: &Arc<P>, l: i64| call_requires(prim_hit, (p, l)),
        ensures
            r.0 is None ==> r.1 == t_max,
            r.0 matches Some(x) ==> exists|i: int, l: i64|
                0 <= i < self.primitives().len() && #[trigger] call_ensures(
                    prim_hit,
                    (&self.primitives()[i], l),
                    Some((x, r.1)),
                ),
            prims_ray_like(prim_hit, self.primitives()) && boxes_ray_like(box_hit, prim_hit, self.primitives()) ==> {
                &&& r.1 <= t_max
                &&& r.0 is None ==> forall|i: int, h: Option<(T, i64)>|
                    0 <= i < self.primitives().len() && #[trigger] call_ensures(
                        prim_hit,
                        (&self.primitives()[i], t_max),
                        h,
                    ) ==> h is None
                &&& r.0 matches Some(x) ==> exists|i: int|
                    0 <= i < self.primitives().len() && #[trigger] hit_at(prim_hit, self.primitives()[i], x, r.1)
                &&& forall|i: int, h: Option<(T, i64)>|
                    0 <= i < self.primitives().len() && #[trigger] call_ensures(
                        prim_hit,
                        (&self.primitives()[i], t_max),
                        h,
                    ) && h is Some ==> r.1 <= hit_dist(h)
            },
    {
        proof {
            use_type_invariant(self);
        }
        let ghost nodes = self.nodes@;
        let ghost prims = self.primitives@;
        let ghost n = prims.len() as int;
        let ghost ray = prims_ray_like(prim_hit, prims) && boxes_ray_like(box_hit, prim_hit, prims);
        let ghost root = choose|root: BuildNode|
            #![trigger flat_ok(nodes, 0, root)]
            {
                &&& flat_ok(nodes, 0, root)
                &&& nodes.len() == root.node_count()
                &&& root.covers(0)
                &&& root.prim_count() == n
                &&& node_encloses(root, 0, prims)
            };
        let n_prims = self.primitives.len();
        let n_nodes = self.nodes.len();
        let mut result: Option<T> = None;
        let mut cur: i64 = t_max;
        let mut stack: Vec<usize> = Vec::new();
        let mut current: usize = 0;
        let ghost mut cur_node = root;
        let ghost mut cur_lo: int = 0;
        let ghost mut sub: Seq<BuildNode> = Seq::empty();
        let ghost mut sub_lo: Seq<int> = Seq::empty();
        loop
            invariant
                nodes == self.nodes@,
                prims == self.primitives@,
                n == prims.len(),
                n_prims == n,
                ray == (prims_ray_like(prim_hit, prims) && boxes_ray_like(box_hit, prim_hit, prims)),
                n_nodes == nodes.len(),
                forall|b: &Bounds3<i32>, l: i64| call_requires(box_hit, (b, l)),
                forall|p: &Arc<P>, l: i64| call_requires(prim_hit, (p, l)),
                pending_ok(nodes, current as int, cur_node, cur_lo, n),
                node_encloses(cur_node, cur_lo, prims),
                sub.len() == stack.len(),
                sub_lo.len() == stack.len(),
                forall|j: int|
                    0 <= j < stack.len() ==> pending_ok(nodes, #[trigger] stack@[j] as int, sub[j], sub_lo[j], n),
                forall|j: int| 0 <= j < sub.len() ==> node_encloses(#[trigger] sub[j], sub_lo[j], prims),
                result is None ==> cur == t_max,
                result matches Some(x) ==> exists|i: int, l: i64|
                    0 <= i < n && #[trigger] call_ensures(prim_hit, (&prims[i], l), Some((x, cur))),
                ray ==> cur <= t_max,
                ray ==> (result matches Some(x) ==> exists|i: int| 0 <= i < n && #[trigger] hit_at(prim_hit, prims[i], x, cur)),
                ray ==> forall|i: int|
                    0 <= i < n && !in_pending(i, cur_lo, cur_node, sub, sub_lo) ==> #[trigger] settled(
                        prim_hit,
                        prims,
                        t_max,
                        i,
                        result is Some,
                        cur,
                    ),
            ensures
                result is None ==> cur == t_max,
                result matches Some(x) ==> exists|i: int, l: i64|
                    0 <= i < n && #[trigger] call_ensures(prim_hit, (&prims[i], l), Some((x, cur))),
                ray ==> cur <= t_max,
                ray ==> (result matches Some(x) ==> exists|i: int| 0 <= i < n && #[trigger] hit_at(prim_hit, prims[i], x, cur)),
                ray ==> forall|i: int| 0 <= i < n ==> #[trigger] settled(prim_hit, prims, t_max, i, result is Some, cur),
            decreases cur_node.node_count() + pending_count(sub),
        {
            proof {
                lemma_node_count_pos(cur_node);
            }
            let node = self.nodes[current];
            let visit = box_hit(&node.bounds, cur);
            if visit {
                match node.data {
                    LNodeData::Leaf { primitives_offset, num_prims } => {
                        proof {
                            assert(cur_node is Leaf);
                        }
                        let mut i: usize = 0;
                        while i < num_prims
                            invariant
                                0 <= i <= num_prims,
                                primitives_offset == cur_lo,
                                num_prims == cur_node.prim_count(),
                                primitives_offset + num_prims <= n_prims,
                                n_prims == n,
                                prims == self.primitives@,
                                n == prims.len(),
                                ray == (prims_ray_like(prim_hit, prims) && boxes_ray_like(box_hit, prim_hit, prims)),
                                forall|p: &Arc<P>, l: i64| call_requires(prim_hit, (p, l)),
                                result is None ==> cur == t_max,
                                result matches Some(x) ==> exists|i: int, l: i64|
                                    0 <= i < n && #[trigger] call_ensures(prim_hit, (&prims[i], l), Some((x, cur))),
                                ray ==> cur <= t_max,
                                ray ==> (result matches Some(x) ==> exists|i: int|
                                    0 <= i < n && #[trigger] hit_at(prim_hit, prims[i], x, cur)),
                                ray ==> forall|k: int|
                                    0 <= k < n && (!in_pending(k, cur_lo, cur_node, sub, sub_lo) || cur_lo <= k
                                        < cur_lo + i) ==> #[trigger] settled(prim_hit, prims, t_max, k, result is Some, cur),
                            decreases num_prims - i,
                        {
                            let k = primitives_offset + i;
                            let ans = prim_hit(&self.primitives[k], cur);
                            let ghost old_cur = cur;
                            let ghost old_found = result is Some;
                            proof {
                                assert(call_ensures(prim_hit, (&prims[k as int], cur), ans));
                            }
                            match ans {
                                Some((x, t)) => {
                                    proof {
                                        if ray {
                                            lemma_hit_settles(prim_hit, prims, t_max, k as int, cur, x, t);
                                            assert forall|j: int|
                                                0 <= j < n && (!in_pending(j, cur_lo, cur_node, sub, sub_lo) || cur_lo
                                                    <= j < cur_lo + i + 1) implies #[trigger] settled(
                                                prim_hit,
                                                prims,
                                                t_max,
                                                j,
                                                true,
                                                t,
                                            ) by {
                                                if j != k {
                                                    assert(settled(prim_hit, prims, t_max, j, old_found, old_cur));
                                                }
                                            }
                                            assert(hit_at(prim_hit, prims[k as int], x, t));
                                        }
                                        assert(call_ensures(prim_hit, (&prims[k as int], old_cur), Some((x, t))));
                                    }
                                    let ghost gx = x;
                                    result = Some(x);
                                    cur = t;
                                    proof {
                                        if ray {
                                            assert(hit_at(prim_hit, prims[k as int], gx, cur));
                                            assert(result->0 == gx);
                                            assert(exists|j: int| 0 <= j < n && #[trigger] hit_at(prim_hit, prims[j], result->0, cur));
                                        }
                                        assert(call_ensures(prim_hit, (&prims[k as int], old_cur), Some((gx, cur))));
                                    }
                                },
                                None => {
                                    proof {
                                        if ray {
                                            lemma_miss_settles(prim_hit, prims, t_max, k as int, result is Some, cur);
                                            if result is Some {
                                                assert(exists|j: int| 0 <= j < n && #[trigger] hit_at(prim_hit, prims[j], result->0, cur));
                                            }
                                        }
                                    }
                                },
                            }
                            i += 1;
                        }
                        proof {
                            assert(cur_node->num_prims == num_prims);
                        }
                        if stack.len() == 0 {
                            proof {
                                if ray {
                                    assert forall|k: int| 0 <= k < n implies #[trigger] settled(
                                        prim_hit,
                                        prims,
                                        t_max,
                                        k,
                                        result is Some,
                                        cur,
                                    ) by {
                                        if in_pending(k, cur_lo, cur_node, sub, sub_lo) {
                                            assert(cur_lo <= k < cur_lo + num_prims);
                                        }
                                    }
                                }
                            }
                            break;
                        }
                        let top = stack.pop().unwrap();
                        proof {
                            let last = sub.len() - 1;
                            if ray {
                                assert forall|k: int|
                                    0 <= k < n && !in_pending(k, sub_lo[last], sub[last], sub.drop_last(), sub_lo.drop_last())
                                        implies #[trigger] settled(prim_hit, prims, t_max, k, result is Some, cur) by {
                                    if in_pending(k, cur_lo, cur_node, sub, sub_lo) {
                                        lemma_pop_pending(k, cur_lo, cur_node, sub, sub_lo);
                                    }
                                }
                            }
                            cur_node = sub[last];
                            cur_lo = sub_lo[last];
                            sub = sub.drop_last();
                            sub_lo = sub_lo.drop_last();
                        }
                        current = top;
                    },
                    LNodeData::Interior { second_child_offset, axis } => {
                        let ghost c0 = *cur_node->children.0;
                        let ghost c1 = *cur_node->children.1;
                        proof {
                            assert(cur_node is Interior);
                            lemma_node_count_pos(c0);
                            lemma_node_count_pos(c1);
                            lemma_covers_pos(c1, cur_lo);
                            lemma_covers_pos(c0, cur_lo + c1.prim_count());
                            assert(pending_count(sub.push(c0)) == pending_count(sub) + c0.node_count()) by {
                                assert(sub.push(c0).drop_last() =~= sub);
                            }
                            assert(pending_count(sub.push(c1)) == pending_count(sub) + c1.node_count()) by {
                                assert(sub.push(c1).drop_last() =~= sub);
                            }
                            assert(node_encloses(c1, cur_lo, prims));
                            assert(node_encloses(c0, cur_lo + c1.prim_count(), prims));
                        }
                        let axis_num = axis.to_index();
                        if dir_is_neg[axis_num] {
                            stack.push(current + 1);
                            proof {
                                if ray {
                                    assert forall|k: int|
                                        0 <= k < n && !in_pending(k, cur_lo, c1, sub.push(c0), sub_lo.push(cur_lo + c1.prim_count()))
                                            implies #[trigger] settled(prim_hit, prims, t_max, k, result is Some, cur) by {
                                        if in_pending(k, cur_lo, cur_node, sub, sub_lo) {
                                            lemma_push_pending(k, cur_lo, cur_node, sub, sub_lo, false);
                                        }
                                    }
                                }
                                sub = sub.push(c0);
                                sub_lo = sub_lo.push(cur_lo + c1.prim_count());
                                cur_node = c1;
                            }
                            current = second_child_offset;
                        } else {
                            stack.push(second_child_offset);
                            proof {
                                if ray {
                                    assert forall|k: int|
                                        0 <= k < n && !in_pending(k, cur_lo + c1.prim_count(), c0, sub.push(c1), sub_lo.push(cur_lo))
                                            implies #[trigger] settled(prim_hit, prims, t_max, k, result is Some, cur) by {
                                        if in_pending(k, cur_lo, cur_node, sub, sub_lo) {
                                            lemma_push_pending(k, cur_lo, cur_node, sub, sub_lo, true);
                                        }
                                    }
                                }
                                sub = sub.push(c1);
                                sub_lo = sub_lo.push(cur_lo);
                                cur_node = c0;
                                cur_lo = cur_lo + c1.prim_count();
                            }
                            current = current + 1;
                        }
                    },
                }
            } else {
                proof {
                    if ray {
                        assert(nodes[current as int].bounds == cur_node.bounds_of());
                        assert forall|k: int| cur_lo <= k < cur_lo + cur_node.prim_count() implies #[trigger] settled(
                            prim_hit,
                            prims,
                            t_max,
                            k,
                            result is Some,
                            cur,
                        ) by {
                            lemma_covers_pos(cur_node, cur_lo);
                            assert(encloses(cur_node.bounds_of(), prims[k].world_bounds_spec()));
                            assert(call_ensures(box_hit, (&node.bounds, cur), false));
                            lemma_box_miss_settles(box_hit, prim_hit, prims, node.bounds, t_max, k, result is Some, cur);
                        }
                    }
                }
                if stack.len() == 0 {
                    proof {
                        if ray {
                            assert forall|k: int| 0 <= k < n implies #[trigger] settled(
                                prim_hit,
                                prims,
                                t_max,
                                k,
                                result is Some,
                                cur,
                            ) by {
                                if in_pending(k, cur_lo, cur_node, sub, sub_lo) {
                                    assert(cur_lo <= k < cur_lo + cur_node.prim_count());
                                }
                            }
                        }
                    }
                    break;
                }
                let top = stack.pop().unwrap();
                proof {
                    let last = sub.len() - 1;
                    if ray {
                        assert forall|k: int|
                            0 <= k < n && !in_pending(k, sub_lo[last], sub[last], sub.drop_last(), sub_lo.drop_last())
                                implies #[trigger] settled(prim_hit, prims, t_max, k, result is Some, cur) by {
                            if in_pending(k, cur_lo, cur_node, sub, sub_lo) {
                                lemma_pop_pending(k, cur_lo, cur_node, sub, sub_lo);
                            }
                        }
                    }
                    cur_node = sub[last];
                    cur_lo = sub_lo[last];
                    sub = sub.drop_last();
                    sub_lo = sub_lo.drop_last();
                }
                current = top;
            }
        }
        proof {
            if result is Some {
                let x = result->0;
                let (i, l) = choose|i: int, l: i64|
                    0 <= i < n && #[trigger] call_ensures(prim_hit, (&prims[i], l), Some((x, cur)));
                assert(call_ensures(prim_hit, (&self.primitives()[i], l), Some((x, cur))));
            }
            if ray {
                assert forall|i: int, h: Option<(T, i64)>|
                    0 <= i < n && #[trigger] call_ensures(prim_hit, (&prims[i], t_max), h) && h is Some implies result
                    is Some && cur <= hit_dist(h) by {
                    assert(settled(prim_hit, prims, t_max, i, result is Some, cur));
                }
            }
        }
        (result, cur)
    }
}

} // verus!

verus! {

/// When the box test and the primitive test each give exactly one answer
/// for each argument, what the traversal cannot miss is exactly what it may
/// hit: `intersect_p` then answers `true` if and only if some primitive
/// passes its test beneath boxes that all pass theirs.
pub proof fn law_intersect_p_decides<P, B, H>(
    nodes: Seq<LNode>,
    prims: Seq<Arc<P>>,
    box_hit: B,
    prim_hit: H,
) where
    B: Fn(&Bounds3<i32>) -> bool,
    H: Fn(&Arc<P>) -> bool,

    requires
        forall|b: &Bounds3<i32>|
            #[trigger] call_ensures(box_hit, (b,), true) != call_ensures(box_hit, (b,), false),
        forall|p: &Arc<P>|
            #[trigger] call_ensures(prim_hit, (p,), true) != call_ensures(prim_hit, (p,), false),
    ensures
        reaches_hit(nodes, 0, box_never_misses(box_hit, nodes), prim_never_misses(prim_hit, prims))
            == reaches_hit(nodes, 0, box_may(box_hit, nodes, true), prim_may(prim_hit, prims, true)),
{
    assert(box_never_misses(box_hit, nodes) =~= box_may(box_hit, nodes, true)) by {
        assert forall|k: int| #[trigger] box_never_misses(box_hit, nodes)(k) == box_may(box_hit, nodes, true)(k) by {
            assert(call_ensures(box_hit, (&nodes[k].bounds,), true) != call_ensures(box_hit, (&nodes[k].bounds,), false));
        }
    }
    assert(prim_never_misses(prim_hit, prims) =~= prim_may(prim_hit, prims, true)) by {
        assert forall|i: int| #[trigger] prim_never_misses(prim_hit, prims)(i) == prim_may(prim_hit, prims, true)(i) by {
            assert(call_ensures(prim_hit, (&prims[i],), true) != call_ensures(prim_hit, (&prims[i],), false));
        }
    }
}

} // verus!

verus! {

proof fn lemma_reaches_enclosed<P: Primitive>(
    nodes: Seq<LNode>,
    prims: Seq<Arc<P>>,
    node: BuildNode,
    offset: int,
    lo: int,
    box_ok: spec_fn(int) -> bool,
    prim_ok: spec_fn(int) -> bool,
    i: int,
)
    requires
        nodes.len() <= usize::MAX,
        flat_ok(nodes, offset, node),
        node.covers(lo),
        node_encloses(node, lo, prims),
        lo <= i < lo + node.prim_count(),
        prim_ok(i),
        forall|k: int|
            0 <= k < nodes.len() && encloses(nodes[k].bounds, prims[i].world_bounds_spec()) ==> #[trigger] box_ok(k),
    ensures
        reaches_hit(nodes, offset, box_ok, prim_ok),
    decreases node,
{
    lemma_node_count_pos(node);
    assert(encloses(node.bounds_of(), prims[i].world_bounds_spec()));
    assert(box_ok(offset));
    match node {
        BuildNode::Leaf { .. } => {
            assert(prim_ok(i));
        },
        BuildNode::Interior { children, .. } => {
            let c0 = *children.0;
            let c1 = *children.1;
            lemma_node_count_pos(c0);
            lemma_node_count_pos(c1);
            lemma_prim_count_nonneg(c0);
            lemma_prim_count_nonneg(c1);
            if i < lo + c1.prim_count() {
                let s = offset + 1 + c0.node_count();
                lemma_reaches_enclosed(nodes, prims, c1, s, lo, box_ok, prim_ok, i);
                assert(offset < s < nodes.len());
            } else {
                lemma_reaches_enclosed(nodes, prims, c0, offset + 1, lo + c1.prim_count(), box_ok, prim_ok, i);
            }
        },
    }
}

/// No hit is missed: in a hierarchy whose nodes enclose the primitives
/// beneath them, a primitive `i` that passes its test is reached from the
/// root whenever the box test passes for every box that encloses the
/// primitive's world bounds.
pub proof fn law_bvh_finds_every_hit<P: Primitive>(
    nodes: Seq<LNode>,
    prims: Seq<Arc<P>>,
    box_ok: spec_fn(int) -> bool,
    prim_ok: spec_fn(int) -> bool,
    i: int,
)
    requires
        layout_encloses(nodes, prims),
        nodes.len() <= usize::MAX,
        0 <= i < prims.len(),
        prim_ok(i),
        forall|k: int|
            0 <= k < nodes.len() && encloses(nodes[k].bounds, prims[i].world_bounds_spec()) ==> #[trigger] box_ok(k),
    ensures
        reaches_hit(nodes, 0, box_ok, prim_ok),
{
    let root = choose|root: BuildNode|
        #![trigger flat_ok(nodes, 0, root)]
        {
            &&& flat_ok(nodes, 0, root)
            &&& root.covers(0)
            &&& root.prim_count() == prims.len()
            &&& node_encloses(root, 0, prims)
        };
    lemma_reaches_enclosed(nodes, prims, root, 0, 0, box_ok, prim_ok, i);
}

} // verus!

verus! {

proof fn lemma_reach_witness(
    nodes: Seq<LNode>,
    node: BuildNode,
    offset: int,
    lo: int,
    box_ok: spec_fn(int) -> bool,
    prim_ok: spec_fn(int) -> bool,
) -> (j: int)
    requires
        nodes.len() <= usize::MAX,
        flat_ok(nodes, offset, node),
        node.covers(lo),
        reaches_hit(nodes, offset, box_ok, prim_ok),
    ensures
        lo <= j < lo + node.prim_count(),
        prim_ok(j),
    decreases node,
{
    lemma_node_count_pos(node);
    match node {
        BuildNode::Leaf { .. } => {
            choose|j: int| lo <= j < lo + node.prim_count() && #[trigger] prim_ok(j)
        },
        BuildNode::Interior { children, .. } => {
            let c0 = *children.0;
            let c1 = *children.1;
            lemma_node_count_pos(c0);
            lemma_node_count_pos(c1);
            lemma_prim_count_nonneg(c0);
            lemma_prim_count_nonneg(c1);
            if reaches_hit(nodes, offset + 1, box_ok, prim_ok) {
                lemma_reach_witness(nodes, c0, offset + 1, lo + c1.prim_count(), box_ok, prim_ok)
            } else {
                lemma_reach_witness(nodes, c1, offset + 1 + c0.node_count(), lo, box_ok, prim_ok)
            }
        },
    }
}

/// What `intersect_p` answers on a hierarchy that `Bvh::new` built, when each
/// test gives exactly one answer per argument and the box test never rejects
/// a box that encloses a primitive passing its test (as a ray that hits a
/// primitive hits every box around it): `true` exactly when some primitive
/// passes its test.
pub proof fn law_intersect_p_exact<P: Primitive, B, H>(
    nodes: Seq<LNode>,
    prims: Seq<Arc<P>>,
    box_hit: B,
    prim_hit: H,
    r: bool,
) where
    B: Fn(&Bounds3<i32>) -> bool,
    H: Fn(&Arc<P>) -> bool,

    requires
        layout_encloses(nodes, prims),
        nodes.len() <= usize::MAX,
        forall|b: &Bounds3<i32>|
            #[trigger] call_ensures(box_hit, (b,), true) != call_ensures(box_hit, (b,), false),
        forall|p: &Arc<P>|
            #[trigger] call_ensures(prim_hit, (p,), true) != call_ensures(prim_hit, (p,), false),
        forall|b: Bounds3<i32>, j: int|
            #![trigger call_ensures(box_hit, (&b,), true), prims[j]]
            0 <= j < prims.len() && encloses(b, prims[j].world_bounds_spec()) && call_ensures(
                prim_hit,
                (&prims[j],),
                true,
            ) ==> call_ensures(box_hit, (&b,), true),
        r ==> reaches_hit(nodes, 0, box_may(box_hit, nodes, true), prim_may(prim_hit, prims, true)),
        !r ==> !reaches_hit(
            nodes,
            0,
            box_never_misses(box_hit, nodes),
            prim_never_misses(prim_hit, prims),
        ),
    ensures
        r == exists|j: int| 0 <= j < prims.len() && #[trigger] call_ensures(prim_hit, (&prims[j],), true),
{
    law_intersect_p_decides(nodes, prims, box_hit, prim_hit);
    let root = choose|root: BuildNode|
        #![trigger flat_ok(nodes, 0, root)]
        {
            &&& flat_ok(nodes, 0, root)
            &&& root.covers(0)
            &&& root.prim_count() == prims.len()
            &&& node_encloses(root, 0, prims)
        };
    let bt = box_may(box_hit, nodes, true);
    let pt = prim_may(prim_hit, prims, true);
    if r {
        let j = lemma_reach_witness(nodes, root, 0, 0, bt, pt);
        assert(call_ensures(prim_hit, (&prims[j],), true));
    }
    if exists|j: int| 0 <= j < prims.len() && #[trigger] call_ensures(prim_hit, (&prims[j],), true) {
        let j = choose|j: int| 0 <= j < prims.len() && #[trigger] call_ensures(prim_hit, (&prims[j],), true);
        assert forall|k: int|
            0 <= k < nodes.len() && encloses(nodes[k].bounds, prims[j].world_bounds_spec()) implies #[trigger] bt(k) by {
            assert(call_ensures(box_hit, (&nodes[k].bounds,), true));
        }
        assert(pt(j));
        law_bvh_finds_every_hit(nodes, prims, bt, pt, j);
    }
}

} // verus!

