use vstd::prelude::*;
use crate::vector::Vector3;

verus! {

/// One of the three coordinate axes.
#[derive(Clone, Copy, Debug, PartialEq, Eq, Structural)]
pub enum Axis {
    X,
    Y,
    Z,
}

impl Axis {
    /// The number of the axis: 0, 1 or 2 for x, y or z.
    pub open spec fn index(self) -> int {
        match self {
            Axis::X => 0,
            Axis::Y => 1,
            Axis::Z => 2,
        }
    }

    /// The number of the axis: 0, 1 or 2 for x, y or z.
    pub fn to_index(&self) -> (r: usize)
        ensures
            r == self.index(),
    {
        match self {
            Axis::X => 0,
            Axis::Y => 1,
            Axis::Z => 2,
        }
    }
}

/// An axis-aligned box given by its corners `p_min` and `p_max`; it is empty
/// when some coordinate of `p_min` exceeds that of `p_max`.
#[derive(Clone, Copy, Debug, PartialEq, Eq, Structural)]
pub struct Bounds3<T> {
    pub p_min: Vector3<T>,
    pub p_max: Vector3<T>,
}

/// The smaller of two integers.
pub open spec fn min_int(a: int, b: int) -> int {
    if a < b {
        a
    } else {
        b
    }
}

/// The larger of two integers.
pub open spec fn max_int(a: int, b: int) -> int {
    if a > b {
        a
    } else {
        b
    }
}

/// Coordinate `i` of a point with `i32` coordinates.
pub open spec fn coord(p: Vector3<i32>, i: int) -> int {
    p.component(i) as int
}

/// Coordinate `i` of a point with `i64` coordinates.
pub open spec fn coord64(p: Vector3<i64>, i: int) -> int {
    p.component(i) as int
}

/// `outer` contains `inner`: on every axis its range covers that of `inner`.
pub open spec fn encloses(outer: Bounds3<i32>, inner: Bounds3<i32>) -> bool {
    forall|i: int|
        #![trigger coord(inner.p_min, i)]
        #![trigger coord(inner.p_max, i)]
        0 <= i < 3 ==> coord(outer.p_min, i) <= coord(inner.p_min, i) && coord(inner.p_max, i)
            <= coord(outer.p_max, i)
}

/// `u` is the union of `a` and `b`: the smallest box that contains both.
pub open spec fn is_union(a: Bounds3<i32>, b: Bounds3<i32>, u: Bounds3<i32>) -> bool {
    forall|i: int|
        0 <= i < 3 ==> #[trigger] coord(u.p_min, i) == min_int(coord(a.p_min, i), coord(b.p_min, i))
            && coord(u.p_max, i) == max_int(coord(a.p_max, i), coord(b.p_max, i))
}

/// The empty box: lower corner at the top of the range, upper corner at the
/// bottom.
pub open spec fn empty_box() -> Bounds3<i32> {
    Bounds3 {
        p_min: Vector3 { x: i32::MAX, y: i32::MAX, z: i32::MAX },
        p_max: Vector3 { x: i32::MIN, y: i32::MIN, z: i32::MIN },
    }
}

/// The smallest box containing `a` and `b`.
pub open spec fn union_spec(a: Bounds3<i32>, b: Bounds3<i32>) -> Bounds3<i32> {
    Bounds3 {
        p_min: Vector3 {
            x: min_int(a.p_min.x as int, b.p_min.x as int) as i32,
            y: min_int(a.p_min.y as int, b.p_min.y as int) as i32,
            z: min_int(a.p_min.z as int, b.p_min.z as int) as i32,
        },
        p_max: Vector3 {
            x: max_int(a.p_max.x as int, b.p_max.x as int) as i32,
            y: max_int(a.p_max.y as int, b.p_max.y as int) as i32,
            z: max_int(a.p_max.z as int, b.p_max.z as int) as i32,
        },
    }
}

/// The union of all the boxes of `boxes`, grown from the empty box one box
/// at a time; the empty box when there are none.
pub open spec fn union_all(boxes: Seq<Bounds3<i32>>) -> Bounds3<i32>
    decreases boxes.len(),
{
    if boxes.len() == 0 {
        empty_box()
    } else {
        union_spec(union_all(boxes.drop_last()), boxes.last())
    }
}

/// A union box is the one `union_spec` gives.
pub proof fn lemma_union_is(a: Bounds3<i32>, b: Bounds3<i32>, u: Bounds3<i32>)
    requires
        is_union(a, b, u),
    ensures
        u == union_spec(a, b),
{
    assert(coord(u.p_min, 0) == min_int(coord(a.p_min, 0), coord(b.p_min, 0)));
    assert(coord(u.p_min, 1) == min_int(coord(a.p_min, 1), coord(b.p_min, 1)));
    assert(coord(u.p_min, 2) == min_int(coord(a.p_min, 2), coord(b.p_min, 2)));
}

/// Twice the surface area of the box, as the integer that `surface_area`
/// computes from the differences of its corners.
pub open spec fn surface_area_spec(b: Bounds3<i32>) -> int {
    let dx = coord(b.p_max, 0) - coord(b.p_min, 0);
    let dy = coord(b.p_max, 1) - coord(b.p_min, 1);
    let dz = coord(b.p_max, 2) - coord(b.p_min, 2);
    2 * (dx * dy + dx * dz + dy * dz)
}

/// A box that holds another, non-empty one has at least its surface area,
/// which is not negative.
pub proof fn law_surface_area_monotone(a: Bounds3<i32>, b: Bounds3<i32>)
    requires
        encloses(a, b),
        forall|i: int| 0 <= i < 3 ==> coord(b.p_min, i) <= #[trigger] coord(b.p_max, i),
    ensures
        0 <= surface_area_spec(b) <= surface_area_spec(a),
{
    assert(coord(b.p_min, 0) <= coord(b.p_max, 0));
    assert(coord(b.p_min, 1) <= coord(b.p_max, 1));
    assert(coord(b.p_min, 2) <= coord(b.p_max, 2));
    assert(coord(a.p_min, 0) <= coord(b.p_min, 0) && coord(b.p_max, 0) <= coord(a.p_max, 0));
    assert(coord(a.p_min, 1) <= coord(b.p_min, 1) && coord(b.p_max, 1) <= coord(a.p_max, 1));
    assert(coord(a.p_min, 2) <= coord(b.p_min, 2) && coord(b.p_max, 2) <= coord(a.p_max, 2));
    let bx = coord(b.p_max, 0) - coord(b.p_min, 0);
    let by_ = coord(b.p_max, 1) - coord(b.p_min, 1);
    let bz = coord(b.p_max, 2) - coord(b.p_min, 2);
    let ax = coord(a.p_max, 0) - coord(a.p_min, 0);
    let ay = coord(a.p_max, 1) - coord(a.p_min, 1);
    let az = coord(a.p_max, 2) - coord(a.p_min, 2);
    assert(0 <= bx * by_ + bx * bz + by_ * bz <= ax * ay + ax * az + ay * az) by (nonlinear_arith)
        requires
            0 <= bx <= ax,
            0 <= by_ <= ay,
            0 <= bz <= az,
    ;
}

/// The union of two boxes encloses each of them.
pub proof fn lemma_union_encloses(a: Bounds3<i32>, b: Bounds3<i32>, u: Bounds3<i32>)
    requires
        is_union(a, b, u),
    ensures
        encloses(u, a),
        encloses(u, b),
{
    assert forall|i: int| 0 <= i < 3 implies coord(u.p_min, i) <= #[trigger] coord(a.p_min, i)
        && coord(a.p_max, i) <= coord(u.p_max, i) by {
        assert(is_union(a, b, u));
        assert(coord(u.p_min, i) == min_int(coord(a.p_min, i), coord(b.p_min, i)));
    }
    assert forall|i: int| 0 <= i < 3 implies coord(u.p_min, i) <= #[trigger] coord(b.p_min, i)
        && coord(b.p_max, i) <= coord(u.p_max, i) by {
        assert(coord(u.p_min, i) == min_int(coord(a.p_min, i), coord(b.p_min, i)));
    }
}

/// Enclosing is transitive.
pub proof fn lemma_encloses_trans(a: Bounds3<i32>, b: Bounds3<i32>, c: Bounds3<i32>)
    requires
        encloses(a, b),
        encloses(b, c),
    ensures
        encloses(a, c),
{
    assert forall|i: int| 0 <= i < 3 implies coord(a.p_min, i) <= #[trigger] coord(c.p_min, i)
        && coord(c.p_max, i) <= coord(a.p_max, i) by {
        assert(coord(a.p_min, i) <= coord(b.p_min, i) && coord(b.p_max, i) <= coord(a.p_max, i));
        assert(coord(b.p_min, i) <= coord(c.p_min, i) && coord(c.p_max, i) <= coord(b.p_max, i));
    }
}

fn min_i32(a: i32, b: i32) -> (r: i32)
    ensures
        r == min_int(a as int, b as int),
{
    if a < b {
        a
    } else {
        b
    }
}

fn max_i32(a: i32, b: i32) -> (r: i32)
    ensures
        r == max_int(a as int, b as int),
{
    if a > b {
        a
    } else {
        b
    }
}

fn min_i64(a: i64, b: i64) -> (r: i64)
    ensures
        r == min_int(a as int, b as int),
{
    if a < b {
        a
    } else {
        b
    }
}

fn max_i64(a: i64, b: i64) -> (r: i64)
    ensures
        r == max_int(a as int, b as int),
{
    if a > b {
        a
    } else {
        b
    }
}

impl Bounds3<i32> {
    /// The empty box, which is neutral for `union`.
    pub fn new() -> (r: Self)
        ensures
            forall|b: Bounds3<i32>| #[trigger] is_union(r, b, b),
            r == empty_box(),
    {
        Bounds3 {
            p_min: Vector3::new(i32::MAX, i32::MAX, i32::MAX),
            p_max: Vector3::new(i32::MIN, i32::MIN, i32::MIN),
        }
    }

    /// The smallest box containing both `b1` and `b2`.
    pub fn union(b1: &Self, b2: &Self) -> (r: Self)
        ensures
            is_union(*b1, *b2, r),
    {
        let r = Bounds3 {
            p_min: Vector3::new(
                min_i32(b1.p_min.x, b2.p_min.x),
                min_i32(b1.p_min.y, b2.p_min.y),
                min_i32(b1.p_min.z, b2.p_min.z),
            ),
            p_max: Vector3::new(
                max_i32(b1.p_max.x, b2.p_max.x),
                max_i32(b1.p_max.y, b2.p_max.y),
                max_i32(b1.p_max.z, b2.p_max.z),
            ),
        };
        r
    }

    /// Twice the surface area of the box (see `surface_area_spec`).
    pub fn surface_area(&self) -> (r: i128)
        ensures
            r == surface_area_spec(*self),
    {
        let dx: i64 = self.p_max.x as i64 - self.p_min.x as i64;
        let dy: i64 = self.p_max.y as i64 - self.p_min.y as i64;
        let dz: i64 = self.p_max.z as i64 - self.p_min.z as i64;
        let xy = wide_mul(dx, dy);
        let xz = wide_mul(dx, dz);
        let yz = wide_mul(dy, dz);
        2 * (xy + xz + yz)
    }
}

fn wide_mul(a: i64, b: i64) -> (r: i128)
    requires
        -0x1_0000_0000 <= a <= 0x1_0000_0000,
        -0x1_0000_0000 <= b <= 0x1_0000_0000,
    ensures
        r == a * b,
        -0x1_0000_0000_0000_0000 <= r <= 0x1_0000_0000_0000_0000,
{
    assert(-0x1_0000_0000_0000_0000 <= a * b <= 0x1_0000_0000_0000_0000) by (nonlinear_arith)
        requires
            -0x1_0000_0000 <= a <= 0x1_0000_0000,
            -0x1_0000_0000 <= b <= 0x1_0000_0000,
    ;
    a as i128 * b as i128
}

/// `u` is `b` grown to contain the point `p`.
pub open spec fn is_union_point(b: Bounds3<i64>, p: Vector3<i64>, u: Bounds3<i64>) -> bool {
    forall|i: int|
        0 <= i < 3 ==> #[trigger] coord64(u.p_min, i) == min_int(coord64(b.p_min, i), coord64(p, i))
            && coord64(u.p_max, i) == max_int(coord64(b.p_max, i), coord64(p, i))
}

/// The axis on which the box is longest (the last such axis on a tie between
/// y and z, the first on a tie with x).
pub open spec fn maximum_extent_spec(b: Bounds3<i64>) -> Axis {
    let dx = coord64(b.p_max, 0) - coord64(b.p_min, 0);
    let dy = coord64(b.p_max, 1) - coord64(b.p_min, 1);
    let dz = coord64(b.p_max, 2) - coord64(b.p_min, 2);
    if dx > dy && dx > dz {
        Axis::X
    } else if dy > dz {
        Axis::Y
    } else {
        Axis::Z
    }
}

/// The axis that `maximum_extent` picks is one along which the box is at
/// least as long as along every other axis.
pub proof fn law_maximum_extent_longest(b: Bounds3<i64>, i: int)
    requires
        0 <= i < 3,
    ensures
        0 <= maximum_extent_spec(b).index() < 3,
        coord64(b.p_max, i) - coord64(b.p_min, i) <= coord64(b.p_max, maximum_extent_spec(b).index()) - coord64(
            b.p_min,
            maximum_extent_spec(b).index(),
        ),
{
}

impl Bounds3<i64> {
    /// The empty box, which `union_point` grows.
    pub fn new() -> (r: Self)
        ensures
            r == (Bounds3 {
                p_min: Vector3 { x: i64::MAX, y: i64::MAX, z: i64::MAX },
                p_max: Vector3 { x: i64::MIN, y: i64::MIN, z: i64::MIN },
            }),
    {
        Bounds3 {
            p_min: Vector3::new(i64::MAX, i64::MAX, i64::MAX),
            p_max: Vector3::new(i64::MIN, i64::MIN, i64::MIN),
        }
    }

    /// The smallest box containing `b` and the point `p`.
    pub fn union_point(b: &Self, p: &Vector3<i64>) -> (r: Self)
        ensures
            is_union_point(*b, *p, r),
    {
        Bounds3 {
            p_min: Vector3::new(
                min_i64(b.p_min.x, p.x),
                min_i64(b.p_min.y, p.y),
                min_i64(b.p_min.z, p.z),
            ),
            p_max: Vector3::new(
                max_i64(b.p_max.x, p.x),
                max_i64(b.p_max.y, p.y),
                max_i64(b.p_max.z, p.z),
            ),
        }
    }

    /// The axis along which the box is longest.
    pub fn maximum_extent(&self) -> (r: Axis)
        ensures
            r == maximum_extent_spec(*self),
    {
        let dx: i128 = self.p_max.x as i128 - self.p_min.x as i128;
        let dy: i128 = self.p_max.y as i128 - self.p_min.y as i128;
        let dz: i128 = self.p_max.z as i128 - self.p_min.z as i128;
        if dx > dy && dx > dz {
            Axis::X
        } else if dy > dz {
            Axis::Y
        } else {
            Axis::Z
        }
    }
}

} // verus!

verus! {

/// The lower (`upper == false`) or upper face of `b` on axis `axis`.
pub open spec fn face(b: Bounds3<i32>, axis: int, upper: bool) -> int {
    if upper {
        coord(b.p_max, axis)
    } else {
        coord(b.p_min, axis)
    }
}

/// Some box of `boxes` reaches the face of `b` on axis `axis`.
pub open spec fn attains(b: Bounds3<i32>, boxes: Seq<Bounds3<i32>>, axis: int, upper: bool) -> bool {
    exists|k: int| 0 <= k < boxes.len() && #[trigger] face(boxes[k], axis, upper) == face(b, axis, upper)
}

/// Every face of `b` is reached by some box of `boxes`: together with
/// enclosing them, `b` is their union.
pub open spec fn faces_attained(b: Bounds3<i32>, boxes: Seq<Bounds3<i32>>) -> bool {
    forall|axis: int, upper: bool| 0 <= axis < 3 ==> #[trigger] attains(b, boxes, axis, upper)
}

/// Growing `b`, the union of `boxes` (or the empty box when there are none),
/// by `x` gives the union of `boxes` and `x`.
pub proof fn lemma_attains_push(b: Bounds3<i32>, x: Bounds3<i32>, u: Bounds3<i32>, boxes: Seq<Bounds3<i32>>)
    requires
        is_union(b, x, u),
        boxes.len() > 0 ==> faces_attained(b, boxes),
        boxes.len() == 0 ==> b == empty_box(),
    ensures
        faces_attained(u, boxes.push(x)),
{
    let nb = boxes.push(x);
    assert forall|axis: int, upper: bool| 0 <= axis < 3 implies #[trigger] attains(u, nb, axis, upper) by {
        assert(coord(u.p_min, axis) == min_int(coord(b.p_min, axis), coord(x.p_min, axis)));
        if face(u, axis, upper) == face(x, axis, upper) {
            assert(nb[boxes.len() as int] == x);
        } else {
            assert(boxes.len() > 0);
            assert(attains(b, boxes, axis, upper));
            let k = choose|k: int| 0 <= k < boxes.len() && #[trigger] face(boxes[k], axis, upper) == face(b, axis, upper);
            assert(nb[k] == boxes[k]);
        }
    }
}

/// The union of two boxes each the union of its own set of boxes is the
/// union of all of them.
pub proof fn lemma_attains_union(a: Bounds3<i32>, b: Bounds3<i32>, u: Bounds3<i32>, sa: Seq<Bounds3<i32>>, sb: Seq<Bounds3<i32>>)
    requires
        is_union(a, b, u),
        faces_attained(a, sa),
        faces_attained(b, sb),
    ensures
        faces_attained(u, sa + sb),
{
    let s = sa + sb;
    assert forall|axis: int, upper: bool| 0 <= axis < 3 implies #[trigger] attains(u, s, axis, upper) by {
        assert(coord(u.p_min, axis) == min_int(coord(a.p_min, axis), coord(b.p_min, axis)));
        assert(attains(a, sa, axis, upper));
        assert(attains(b, sb, axis, upper));
        if face(u, axis, upper) == face(a, axis, upper) {
            let k = choose|k: int| 0 <= k < sa.len() && #[trigger] face(sa[k], axis, upper) == face(a, axis, upper);
            assert(s[k] == sa[k]);
        } else {
            let k = choose|k: int| 0 <= k < sb.len() && #[trigger] face(sb[k], axis, upper) == face(b, axis, upper);
            assert(s[sa.len() + k] == sb[k]);
        }
    }
}

} // verus!
