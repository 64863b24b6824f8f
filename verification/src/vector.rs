use vstd::prelude::*;
use vstd::std_specs::cmp::{PartialOrdSpec, PartialOrdIs};
use vstd::std_specs::ops::{AddSpecImpl, SubSpecImpl, MulSpecImpl, NegSpecImpl};

verus! {

/// A three-component vector.
#[derive(Debug, Clone, Copy, PartialEq, Eq, Structural)]
pub struct Vector3<T> {
    pub x: T,
    pub y: T,
    pub z: T,
}

impl<T> Vector3<T> {
    /// Component `i` of the vector: `x`, `y` or `z` for 0, 1 or 2.
    pub open spec fn component(self, i: int) -> T {
        if i == 0 {
            self.x
        } else if i == 1 {
            self.y
        } else {
            self.z
        }
    }
}

impl<T: Copy> Vector3<T> {
    /// The vector `(x, y, z)`.
    pub fn new(x: T, y: T, z: T) -> (r: Self)
        ensures
            r.x == x,
            r.y == y,
            r.z == z,
    {
        Vector3 { x, y, z }
    }

    /// Component `i` of the vector, as indexing `v[i]` gives it.
    pub fn get(&self, i: usize) -> (r: T)
        requires
            i < 3,
        ensures
            r == self.component(i as int),
    {
        if i == 0 {
            self.x
        } else if i == 1 {
            self.y
        } else {
            self.z
        }
    }
}

/// The dot product of two integer vectors.
pub open spec fn dot_spec(a: Vector3<i32>, b: Vector3<i32>) -> int {
    a.x * b.x + a.y * b.y + a.z * b.z
}

impl Vector3<i32> {
    /// The dot product `self . v`.
    pub fn dot(&self, v: &Self) -> (r: i32)
        requires
            i32::MIN <= dot_spec(*self, *v) <= i32::MAX,
        ensures
            r == dot_spec(*self, *v),
    {
        let s = wide_mul(self.x, v.x) + wide_mul(self.y, v.y) + wide_mul(self.z, v.z);
        s as i32
    }

    /// The unit vector along the x axis.
    pub fn x() -> (r: Self)
        ensures
            r == (Vector3 { x: 1i32, y: 0i32, z: 0i32 }),
    {
        Self::new(1, 0, 0)
    }

    /// The unit vector along the y axis.
    pub fn y() -> (r: Self)
        ensures
            r == (Vector3 { x: 0i32, y: 1i32, z: 0i32 }),
    {
        Self::new(0, 1, 0)
    }

    /// The unit vector along the z axis.
    pub fn z() -> (r: Self)
        ensures
            r == (Vector3 { x: 0i32, y: 0i32, z: 1i32 }),
    {
        Self::new(0, 0, 1)
    }
}

fn wide_mul(a: i32, b: i32) -> (r: i128)
    ensures
        r == a * b,
        -0x4000_0000_0000_0000 <= r <= 0x4000_0000_0000_0000,
{
    assert(-0x4000_0000_0000_0000 <= a * b <= 0x4000_0000_0000_0000) by (nonlinear_arith)
        requires
            i32::MIN <= a <= i32::MAX,
            i32::MIN <= b <= i32::MAX,
    ;
    a as i128 * b as i128
}

/// The dimension that `max_dimension` picks for values whose comparisons
/// behave as their `partial_cmp_spec` says.
pub open spec fn max_dimension_spec<T: PartialOrd>(v: Vector3<T>) -> int {
    if v.x.is_gt(&v.y) {
        if v.x.is_gt(&v.z) {
            0
        } else {
            2
        }
    } else if v.y.is_gt(&v.z) {
        1
    } else {
        2
    }
}

/// For integer vectors, the dimension that `max_dimension` picks holds a
/// largest component.
pub proof fn law_max_dimension_largest(v: Vector3<i32>, i: int)
    requires
        0 <= i < 3,
    ensures
        0 <= max_dimension_spec(v) < 3,
        v.component(i) <= v.component(max_dimension_spec(v)),
{
}

/// The index (0, 1 or 2) of the dimension holding the largest component.
pub fn max_dimension<T: PartialOrd>(v: &Vector3<T>) -> (r: usize)
    ensures
        r < 3,
        T::obeys_partial_cmp_spec() ==> r == max_dimension_spec(*v),
{
    if v.x > v.y {
        if v.x > v.z {
            0
        } else {
            2
        }
    } else if v.y > v.z {
        1
    } else {
        2
    }
}

/// The vector whose components are those of `v` at the indices `x`, `y`, `z`.
pub fn permute_v<T: Copy>(v: &Vector3<T>, x: usize, y: usize, z: usize) -> (r: Vector3<T>)
    requires
        x < 3,
        y < 3,
        z < 3,
    ensures
        r.x == v.component(x as int),
        r.y == v.component(y as int),
        r.z == v.component(z as int),
{
    Vector3::new(v.get(x), v.get(y), v.get(z))
}

} // verus!

verus! {

/// A two-component point.
#[derive(Debug, Clone, Copy, PartialEq, Eq, Structural)]
pub struct Point2<T> {
    pub x: T,
    pub y: T,
}

impl<T: Copy> Point2<T> {
    /// The point `(x, y)`.
    pub fn new(x: T, y: T) -> (r: Self)
        ensures
            r.x == x,
            r.y == y,
    {
        Point2 { x, y }
    }
}

} // verus!

verus! {

/// Every component of `v` lies in `i32`.
pub open spec fn fits_i32(x: int, y: int, z: int) -> bool {
    &&& i32::MIN <= x <= i32::MAX
    &&& i32::MIN <= y <= i32::MAX
    &&& i32::MIN <= z <= i32::MAX
}

/// The cross product of two integer vectors, over the integers.
pub open spec fn cross_spec(a: Vector3<i32>, b: Vector3<i32>) -> (int, int, int) {
    (a.y * b.z - a.z * b.y, a.z * b.x - a.x * b.z, a.x * b.y - a.y * b.x)
}

impl Vector3<i32> {
    /// The cross product `self x v`.
    pub fn cross(&self, v: &Self) -> (r: Self)
        requires
            fits_i32(cross_spec(*self, *v).0, cross_spec(*self, *v).1, cross_spec(*self, *v).2),
        ensures
            r.x == cross_spec(*self, *v).0,
            r.y == cross_spec(*self, *v).1,
            r.z == cross_spec(*self, *v).2,
    {
        let x = wide_mul(self.y, v.z) - wide_mul(self.z, v.y);
        let y = wide_mul(self.z, v.x) - wide_mul(self.x, v.z);
        let z = wide_mul(self.x, v.y) - wide_mul(self.y, v.x);
        Self::new(x as i32, y as i32, z as i32)
    }

    /// The squared length `x² + y² + z²`.
    pub fn length_sq(&self) -> (r: i128)
        ensures
            r == dot_spec(*self, *self),
    {
        wide_mul(self.x, self.x) + wide_mul(self.y, self.y) + wide_mul(self.z, self.z)
    }

    /// The componentwise absolute value.
    pub fn abs(&self) -> (r: Self)
        requires
            self.x > i32::MIN,
            self.y > i32::MIN,
            self.z > i32::MIN,
        ensures
            r.x == if self.x < 0 { -self.x } else { self.x as int },
            r.y == if self.y < 0 { -self.y } else { self.y as int },
            r.z == if self.z < 0 { -self.z } else { self.z as int },
    {
        Self::new(
            if self.x < 0 { -self.x } else { self.x },
            if self.y < 0 { -self.y } else { self.y },
            if self.z < 0 { -self.z } else { self.z },
        )
    }

    /// The zero vector.
    pub fn zero() -> (r: Self)
        ensures
            r == (Vector3 { x: 0i32, y: 0i32, z: 0i32 }),
    {
        Self::new(0, 0, 0)
    }

    /// Whether every component is zero.
    pub fn is_zero(&self) -> (r: bool)
        ensures
            r == (self.x == 0 && self.y == 0 && self.z == 0),
    {
        self.x == 0 && self.y == 0 && self.z == 0
    }
}

impl Default for Vector3<i32> {
    /// The zero vector.
    fn default() -> (r: Self)
        ensures
            r == (Vector3 { x: 0i32, y: 0i32, z: 0i32 }),
    {
        Vector3 { x: 0, y: 0, z: 0 }
    }
}

impl AddSpecImpl<Vector3<i32>> for Vector3<i32> {
    open spec fn obeys_add_spec() -> bool {
        true
    }

    open spec fn add_req(self, rhs: Vector3<i32>) -> bool {
        fits_i32(self.x + rhs.x, self.y + rhs.y, self.z + rhs.z)
    }

    open spec fn add_spec(self, rhs: Vector3<i32>) -> Vector3<i32> {
        Vector3 {
            x: (self.x + rhs.x) as i32,
            y: (self.y + rhs.y) as i32,
            z: (self.z + rhs.z) as i32,
        }
    }
}

impl core::ops::Add<Vector3<i32>> for Vector3<i32> {
    type Output = Vector3<i32>;

    /// The componentwise sum.
    fn add(self, rhs: Vector3<i32>) -> (r: Vector3<i32>) {
        Vector3 { x: self.x + rhs.x, y: self.y + rhs.y, z: self.z + rhs.z }
    }
}

impl SubSpecImpl<Vector3<i32>> for Vector3<i32> {
    open spec fn obeys_sub_spec() -> bool {
        true
    }

    open spec fn sub_req(self, rhs: Vector3<i32>) -> bool {
        fits_i32(self.x - rhs.x, self.y - rhs.y, self.z - rhs.z)
    }

    open spec fn sub_spec(self, rhs: Vector3<i32>) -> Vector3<i32> {
        Vector3 {
            x: (self.x - rhs.x) as i32,
            y: (self.y - rhs.y) as i32,
            z: (self.z - rhs.z) as i32,
        }
    }
}

impl core::ops::Sub<Vector3<i32>> for Vector3<i32> {
    type Output = Vector3<i32>;

    /// The componentwise difference.
    fn sub(self, rhs: Vector3<i32>) -> (r: Vector3<i32>) {
        Vector3 { x: self.x - rhs.x, y: self.y - rhs.y, z: self.z - rhs.z }
    }
}

impl MulSpecImpl<i32> for Vector3<i32> {
    open spec fn obeys_mul_spec() -> bool {
        true
    }

    open spec fn mul_req(self, v: i32) -> bool {
        fits_i32(self.x * v, self.y * v, self.z * v)
    }

    open spec fn mul_spec(self, v: i32) -> Vector3<i32> {
        Vector3 { x: (self.x * v) as i32, y: (self.y * v) as i32, z: (self.z * v) as i32 }
    }
}

impl core::ops::Mul<i32> for Vector3<i32> {
    type Output = Vector3<i32>;

    /// Every component times `v`.
    fn mul(self, v: i32) -> (r: Vector3<i32>) {
        Vector3 { x: self.x * v, y: self.y * v, z: self.z * v }
    }
}

impl NegSpecImpl for Vector3<i32> {
    open spec fn obeys_neg_spec() -> bool {
        true
    }

    open spec fn neg_req(self) -> bool {
        self.x > i32::MIN && self.y > i32::MIN && self.z > i32::MIN
    }

    open spec fn neg_spec(self) -> Vector3<i32> {
        Vector3 { x: (-self.x) as i32, y: (-self.y) as i32, z: (-self.z) as i32 }
    }
}

impl core::ops::Neg for Vector3<i32> {
    type Output = Vector3<i32>;

    /// The opposite vector.
    fn neg(self) -> (r: Vector3<i32>) {
        Vector3 { x: -self.x, y: -self.y, z: -self.z }
    }
}

} // verus!

verus! {

/// The dot product does not depend on the order of its factors.
pub proof fn law_dot_commutes(a: Vector3<i32>, b: Vector3<i32>)
    ensures
        dot_spec(a, b) == dot_spec(b, a),
{
    let (ax, ay, az, bx, by, bz) = (a.x as int, a.y as int, a.z as int, b.x as int, b.y as int, b.z as int);
    assert(ax * bx + ay * by + az * bz == bx * ax + by * ay + bz * az) by (nonlinear_arith);
}

/// A vector crossed with itself is zero, and the unit vector along x crossed
/// with the one along y is the one along z.
pub proof fn law_cross_self_and_axes(a: Vector3<i32>)
    ensures
        cross_spec(a, a) == (0int, 0int, 0int),
        cross_spec(Vector3 { x: 1i32, y: 0i32, z: 0i32 }, Vector3 { x: 0i32, y: 1i32, z: 0i32 }) == (0int, 0int, 1int),
{
    let (ax, ay, az) = (a.x as int, a.y as int, a.z as int);
    assert(ay * az - az * ay == 0 && az * ax - ax * az == 0 && ax * ay - ay * ax == 0) by (nonlinear_arith);
}

/// The cross product is perpendicular to both factors and changes sign when
/// they are swapped.
pub proof fn law_cross_perpendicular(a: Vector3<i32>, b: Vector3<i32>)
    ensures
        a.x * cross_spec(a, b).0 + a.y * cross_spec(a, b).1 + a.z * cross_spec(a, b).2 == 0,
        b.x * cross_spec(a, b).0 + b.y * cross_spec(a, b).1 + b.z * cross_spec(a, b).2 == 0,
        cross_spec(b, a).0 == -cross_spec(a, b).0,
        cross_spec(b, a).1 == -cross_spec(a, b).1,
        cross_spec(b, a).2 == -cross_spec(a, b).2,
{
    let (ax, ay, az, bx, by, bz) = (a.x as int, a.y as int, a.z as int, b.x as int, b.y as int, b.z as int);
    assert(ax * (ay * bz - az * by) + ay * (az * bx - ax * bz) + az * (ax * by - ay * bx) == 0)
        by (nonlinear_arith);
    assert(bx * (ay * bz - az * by) + by * (az * bx - ax * bz) + bz * (ax * by - ay * bx) == 0)
        by (nonlinear_arith);
}

} // verus!
