use vstd::prelude::*;
use vstd::std_specs::cmp::PartialEqSpecImpl;
use vstd::std_specs::ops::MulSpecImpl;

verus! {

/// A 4x4 matrix, stored row by row.
#[derive(Debug, Clone, Copy)]
pub struct Matrix {
    pub data: [[i32; 4]; 4],
}

/// The entry of `m` in row `i` and column `j`.
pub open spec fn entry(m: Matrix, i: int, j: int) -> int {
    m.data@[i]@[j] as int
}

/// Entry `(i, j)` of the product `a * b`: row `i` of `a` times column `j` of `b`.
pub open spec fn product_entry(a: Matrix, b: Matrix, i: int, j: int) -> int {
    entry(a, i, 0) * entry(b, 0, j) + entry(a, i, 1) * entry(b, 1, j) + entry(a, i, 2) * entry(
        b,
        2,
        j,
    ) + entry(a, i, 3) * entry(b, 3, j)
}

/// Every entry of `a * b` fits in an `i32`.
pub open spec fn product_fits(a: Matrix, b: Matrix) -> bool {
    forall|i: int, j: int|
        0 <= i < 4 && 0 <= j < 4 ==> i32::MIN <= #[trigger] product_entry(a, b, i, j)
            <= i32::MAX
}

/// `r` is the product `a * b`.
pub open spec fn is_product(a: Matrix, b: Matrix, r: Matrix) -> bool {
    forall|i: int, j: int|
        0 <= i < 4 && 0 <= j < 4 ==> #[trigger] entry(r, i, j) == product_entry(a, b, i, j)
}

/// The product `a * b` (a matrix of `i32` entries exists for it exactly when
/// `product_fits(a, b)`).
pub open spec fn product(a: Matrix, b: Matrix) -> Matrix {
    choose|r: Matrix| is_product(a, b, r)
}

/// `r` is the transpose of `m`.
pub open spec fn is_transpose(m: Matrix, r: Matrix) -> bool {
    forall|i: int, j: int| 0 <= i < 4 && 0 <= j < 4 ==> #[trigger] entry(r, i, j) == entry(m, j, i)
}

/// `m` is the identity matrix.
pub open spec fn is_identity(m: Matrix) -> bool {
    forall|i: int, j: int|
        0 <= i < 4 && 0 <= j < 4 ==> #[trigger] entry(m, i, j) == if i == j {
            1int
        } else {
            0int
        }
}

/// Two matrices are equal exactly when all their entries are.
pub proof fn lemma_matrix_ext(a: Matrix, b: Matrix)
    requires
        forall|i: int, j: int| 0 <= i < 4 && 0 <= j < 4 ==> #[trigger] entry(a, i, j) == entry(b, i, j),
    ensures
        a == b,
{
    assert forall|i: int| 0 <= i < 4 implies #[trigger] a.data@[i] == b.data@[i] by {
        assert(entry(a, i, 0) == entry(b, i, 0));
        assert(entry(a, i, 1) == entry(b, i, 1));
        assert(entry(a, i, 2) == entry(b, i, 2));
        assert(entry(a, i, 3) == entry(b, i, 3));
        assert(a.data@[i]@ =~= b.data@[i]@);
        vstd::array::axiom_array_ext_equal(a.data@[i], b.data@[i]);
    }
    assert(a.data@ =~= b.data@);
    vstd::array::axiom_array_ext_equal(a.data, b.data);
}

impl PartialEqSpecImpl for Matrix {
    open spec fn obeys_eq_spec() -> bool {
        true
    }

    open spec fn eq_spec(&self, other: &Matrix) -> bool {
        *self == *other
    }
}

impl PartialEq for Matrix {
    fn eq(&self, other: &Matrix) -> (r: bool) {
        for i in 0..4usize
            invariant
                forall|p: int, q: int|
                    0 <= p < i && 0 <= q < 4 ==> #[trigger] entry(*self, p, q) == entry(*other, p, q),
        {
            for j in 0..4usize
                invariant
                    0 <= i < 4,
                    forall|p: int, q: int|
                        0 <= p < i && 0 <= q < 4 ==> #[trigger] entry(*self, p, q) == entry(
                            *other,
                            p,
                            q,
                        ),
                    forall|q: int| 0 <= q < j ==> #[trigger] entry(*self, i as int, q) == entry(
                        *other,
                        i as int,
                        q,
                    ),
            {
                if self.data[i][j] != other.data[i][j] {
                    return false;
                }
            }
        }
        proof {
            lemma_matrix_ext(*self, *other);
        }
        true
    }
}

impl Eq for Matrix {

}

fn wide_mul(x: i32, y: i32) -> (r: i128)
    ensures
        r == x * y,
        -0x4000_0000_0000_0000 <= r <= 0x4000_0000_0000_0000,
{
    assert(-0x4000_0000_0000_0000 <= x * y <= 0x4000_0000_0000_0000) by (nonlinear_arith)
        requires
            i32::MIN <= x <= i32::MAX,
            i32::MIN <= y <= i32::MAX,
    ;
    x as i128 * y as i128
}

impl Matrix {
    /// A matrix with the given rows.
    pub fn new(data: [[i32; 4]; 4]) -> (r: Self)
        ensures
            r.data == data,
    {
        Matrix { data }
    }

    /// The identity matrix.
    pub fn identity() -> (r: Self)
        ensures
            is_identity(r),
    {
        let r = Self::new([[1, 0, 0, 0], [0, 1, 0, 0], [0, 0, 1, 0], [0, 0, 0, 1]]);
        assert(is_identity(r)) by {
            assert forall|i: int, j: int| 0 <= i < 4 && 0 <= j < 4 implies #[trigger] entry(r, i, j)
                == if i == j {
                1int
            } else {
                0int
            } by {
                assert(r.data@[0]@ =~= seq![1i32, 0, 0, 0]);
                assert(r.data@[1]@ =~= seq![0i32, 1, 0, 0]);
                assert(r.data@[2]@ =~= seq![0i32, 0, 1, 0]);
                assert(r.data@[3]@ =~= seq![0i32, 0, 0, 1]);
            }
        }
        r
    }

    /// The transpose: row `i` of the result is column `i` of `self`.
    pub fn transpose(&self) -> (r: Self)
        ensures
            is_transpose(*self, r),
    {
        let d = &self.data;
        let r = Self::new(
            [
                [d[0][0], d[1][0], d[2][0], d[3][0]],
                [d[0][1], d[1][1], d[2][1], d[3][1]],
                [d[0][2], d[1][2], d[2][2], d[3][2]],
                [d[0][3], d[1][3], d[2][3], d[3][3]],
            ],
        );
        r
    }

    fn product_cell(&self, rhs: &Matrix, i: usize, j: usize) -> (r: i32)
        requires
            i < 4,
            j < 4,
            i32::MIN <= product_entry(*self, *rhs, i as int, j as int) <= i32::MAX,
        ensures
            r == product_entry(*self, *rhs, i as int, j as int),
    {
        let a = &self.data[i];
        let b = &rhs.data;
        let s: i128 = wide_mul(a[0], b[0][j]) + wide_mul(a[1], b[1][j]) + wide_mul(a[2], b[2][j])
            + wide_mul(a[3], b[3][j]);
        s as i32
    }

    /// The product `self * rhs`.
    pub fn mul_matrix(&self, rhs: &Matrix) -> (r: Matrix)
        requires
            product_fits(*self, *rhs),
        ensures
            is_product(*self, *rhs, r),
    {
        let r = Matrix::new(
            [
                [
                    self.product_cell(rhs, 0, 0),
                    self.product_cell(rhs, 0, 1),
                    self.product_cell(rhs, 0, 2),
                    self.product_cell(rhs, 0, 3),
                ],
                [
                    self.product_cell(rhs, 1, 0),
                    self.product_cell(rhs, 1, 1),
                    self.product_cell(rhs, 1, 2),
                    self.product_cell(rhs, 1, 3),
                ],
                [
                    self.product_cell(rhs, 2, 0),
                    self.product_cell(rhs, 2, 1),
                    self.product_cell(rhs, 2, 2),
                    self.product_cell(rhs, 2, 3),
                ],
                [
                    self.product_cell(rhs, 3, 0),
                    self.product_cell(rhs, 3, 1),
                    self.product_cell(rhs, 3, 2),
                    self.product_cell(rhs, 3, 3),
                ],
            ],
        );
        r
    }
}


impl Default for Matrix {
    /// The identity matrix.
    fn default() -> (r: Self)
        ensures
            is_identity(r),
    {
        Self::identity()
    }
}

impl<'a, 'b> MulSpecImpl<&'b Matrix> for &'a Matrix {
    open spec fn obeys_mul_spec() -> bool {
        true
    }

    open spec fn mul_req(self, rhs: &'b Matrix) -> bool {
        product_fits(*self, *rhs)
    }

    open spec fn mul_spec(self, rhs: &'b Matrix) -> Matrix {
        product(*self, *rhs)
    }
}

impl<'a, 'b> core::ops::Mul<&'b Matrix> for &'a Matrix {
    type Output = Matrix;

    /// The matrix product `self * rhs`.
    fn mul(self, rhs: &'b Matrix) -> (r: Matrix)
        ensures
            is_product(*self, *rhs, r),
    {
        let r = self.mul_matrix(rhs);
        proof {
            let c = product(*self, *rhs);
            assert(is_product(*self, *rhs, c));
            lemma_matrix_ext(r, c);
        }
        r
    }
}

} // verus!

verus! {

/// Transposing twice gives back the matrix.
pub proof fn law_transpose_involutive(m: Matrix, t: Matrix, tt: Matrix)
    requires
        is_transpose(m, t),
        is_transpose(t, tt),
    ensures
        tt == m,
{
    assert forall|i: int, j: int| 0 <= i < 4 && 0 <= j < 4 implies #[trigger] entry(tt, i, j)
        == entry(m, i, j) by {
        assert(entry(tt, i, j) == entry(t, j, i));
    }
    lemma_matrix_ext(tt, m);
}

/// The transpose of the identity is the identity.
pub proof fn law_transpose_identity(id: Matrix, t: Matrix)
    requires
        is_identity(id),
        is_transpose(id, t),
    ensures
        t == id,
{
    assert forall|i: int, j: int| 0 <= i < 4 && 0 <= j < 4 implies #[trigger] entry(t, i, j)
        == entry(id, i, j) by {
        assert(entry(t, i, j) == entry(id, j, i));
    }
    lemma_matrix_ext(t, id);
}

/// The identity is neutral for the product on both sides.
pub proof fn law_identity_neutral(m: Matrix, id: Matrix)
    requires
        is_identity(id),
    ensures
        product_fits(m, id),
        product_fits(id, m),
        is_product(m, id, m),
        is_product(id, m, m),
{
    assert forall|i: int, j: int| 0 <= i < 4 && 0 <= j < 4 implies #[trigger] product_entry(m, id, i, j)
        == entry(m, i, j) && product_entry(id, m, i, j) == entry(m, i, j) by {
        assert(entry(id, 0, j) == if j == 0 { 1int } else { 0int });
        assert(entry(id, 1, j) == if j == 1 { 1int } else { 0int });
        assert(entry(id, 2, j) == if j == 2 { 1int } else { 0int });
        assert(entry(id, 3, j) == if j == 3 { 1int } else { 0int });
        assert(entry(id, i, 0) == if i == 0 { 1int } else { 0int });
        assert(entry(id, i, 1) == if i == 1 { 1int } else { 0int });
        assert(entry(id, i, 2) == if i == 2 { 1int } else { 0int });
        assert(entry(id, i, 3) == if i == 3 { 1int } else { 0int });
    }
}

/// The transpose of a product is the product of the transposes in the
/// opposite order.
pub proof fn law_transpose_of_product(a: Matrix, b: Matrix, c: Matrix, at: Matrix, bt: Matrix, ct: Matrix)
    requires
        is_product(a, b, c),
        is_transpose(a, at),
        is_transpose(b, bt),
        is_transpose(c, ct),
    ensures
        product_fits(bt, at),
        is_product(bt, at, ct),
{
    assert forall|i: int, j: int| 0 <= i < 4 && 0 <= j < 4 implies #[trigger] product_entry(bt, at, i, j)
        == entry(ct, i, j) by {
        assert(entry(ct, i, j) == entry(c, j, i));
        assert(entry(c, j, i) == product_entry(a, b, j, i));
        assert(entry(bt, i, 0) == entry(b, 0, i));
        assert(entry(bt, i, 1) == entry(b, 1, i));
        assert(entry(bt, i, 2) == entry(b, 2, i));
        assert(entry(bt, i, 3) == entry(b, 3, i));
        assert(entry(at, 0, j) == entry(a, j, 0));
        assert(entry(at, 1, j) == entry(a, j, 1));
        assert(entry(at, 2, j) == entry(a, j, 2));
        assert(entry(at, 3, j) == entry(a, j, 3));
        assert(product_entry(bt, at, i, j) == product_entry(a, b, j, i)) by (nonlinear_arith)
            requires
                product_entry(bt, at, i, j) == entry(bt, i, 0) * entry(at, 0, j) + entry(bt, i, 1)
                    * entry(at, 1, j) + entry(bt, i, 2) * entry(at, 2, j) + entry(bt, i, 3) * entry(
                    at,
                    3,
                    j,
                ),
                product_entry(a, b, j, i) == entry(a, j, 0) * entry(b, 0, i) + entry(a, j, 1)
                    * entry(b, 1, i) + entry(a, j, 2) * entry(b, 2, i) + entry(a, j, 3) * entry(
                    b,
                    3,
                    i,
                ),
                entry(bt, i, 0) == entry(b, 0, i),
                entry(bt, i, 1) == entry(b, 1, i),
                entry(bt, i, 2) == entry(b, 2, i),
                entry(bt, i, 3) == entry(b, 3, i),
                entry(at, 0, j) == entry(a, j, 0),
                entry(at, 1, j) == entry(a, j, 1),
                entry(at, 2, j) == entry(a, j, 2),
                entry(at, 3, j) == entry(a, j, 3),
        ;
    }
}

} // verus!

verus! {

proof fn lemma_distr4_right(x0: int, x1: int, x2: int, x3: int, c: int)
    ensures
        (x0 + x1 + x2 + x3) * c == x0 * c + x1 * c + x2 * c + x3 * c,
{
    assert((x0 + x1 + x2 + x3) * c == x0 * c + x1 * c + x2 * c + x3 * c) by (nonlinear_arith);
}

proof fn lemma_distr4_left(a: int, y0: int, y1: int, y2: int, y3: int)
    ensures
        a * (y0 + y1 + y2 + y3) == a * y0 + a * y1 + a * y2 + a * y3,
{
    assert(a * (y0 + y1 + y2 + y3) == a * y0 + a * y1 + a * y2 + a * y3) by (nonlinear_arith);
}

proof fn lemma_assoc4(a0: int, a1: int, a2: int, a3: int, b0: int, b1: int, b2: int, b3: int, c: int)
    ensures
        (a0 * b0) * c == a0 * (b0 * c),
        (a1 * b1) * c == a1 * (b1 * c),
        (a2 * b2) * c == a2 * (b2 * c),
        (a3 * b3) * c == a3 * (b3 * c),
{
    assert((a0 * b0) * c == a0 * (b0 * c)) by (nonlinear_arith);
    assert((a1 * b1) * c == a1 * (b1 * c)) by (nonlinear_arith);
    assert((a2 * b2) * c == a2 * (b2 * c)) by (nonlinear_arith);
    assert((a3 * b3) * c == a3 * (b3 * c)) by (nonlinear_arith);
}

proof fn lemma_assoc_entry(a: Matrix, b: Matrix, c: Matrix, ab: Matrix, bc: Matrix, i: int, j: int)
    requires
        0 <= i < 4,
        0 <= j < 4,
        is_product(a, b, ab),
        is_product(b, c, bc),
    ensures
        product_entry(ab, c, i, j) == product_entry(a, bc, i, j),
{
    let a0 = entry(a, i, 0);
    let a1 = entry(a, i, 1);
    let a2 = entry(a, i, 2);
    let a3 = entry(a, i, 3);
    let c0 = entry(c, 0, j);
    let c1 = entry(c, 1, j);
    let c2 = entry(c, 2, j);
    let c3 = entry(c, 3, j);
    assert(entry(ab, i, 0) == product_entry(a, b, i, 0));
    assert(entry(ab, i, 1) == product_entry(a, b, i, 1));
    assert(entry(ab, i, 2) == product_entry(a, b, i, 2));
    assert(entry(ab, i, 3) == product_entry(a, b, i, 3));
    assert(entry(bc, 0, j) == product_entry(b, c, 0, j));
    assert(entry(bc, 1, j) == product_entry(b, c, 1, j));
    assert(entry(bc, 2, j) == product_entry(b, c, 2, j));
    assert(entry(bc, 3, j) == product_entry(b, c, 3, j));
    let b00 = entry(b, 0, 0);
    let b01 = entry(b, 0, 1);
    let b02 = entry(b, 0, 2);
    let b03 = entry(b, 0, 3);
    let b10 = entry(b, 1, 0);
    let b11 = entry(b, 1, 1);
    let b12 = entry(b, 1, 2);
    let b13 = entry(b, 1, 3);
    let b20 = entry(b, 2, 0);
    let b21 = entry(b, 2, 1);
    let b22 = entry(b, 2, 2);
    let b23 = entry(b, 2, 3);
    let b30 = entry(b, 3, 0);
    let b31 = entry(b, 3, 1);
    let b32 = entry(b, 3, 2);
    let b33 = entry(b, 3, 3);
    lemma_distr4_right(a0 * b00, a1 * b10, a2 * b20, a3 * b30, c0);
    lemma_distr4_right(a0 * b01, a1 * b11, a2 * b21, a3 * b31, c1);
    lemma_distr4_right(a0 * b02, a1 * b12, a2 * b22, a3 * b32, c2);
    lemma_distr4_right(a0 * b03, a1 * b13, a2 * b23, a3 * b33, c3);
    lemma_distr4_left(a0, b00 * c0, b01 * c1, b02 * c2, b03 * c3);
    lemma_distr4_left(a1, b10 * c0, b11 * c1, b12 * c2, b13 * c3);
    lemma_distr4_left(a2, b20 * c0, b21 * c1, b22 * c2, b23 * c3);
    lemma_distr4_left(a3, b30 * c0, b31 * c1, b32 * c2, b33 * c3);
    lemma_assoc4(a0, a1, a2, a3, b00, b10, b20, b30, c0);
    lemma_assoc4(a0, a1, a2, a3, b01, b11, b21, b31, c1);
    lemma_assoc4(a0, a1, a2, a3, b02, b12, b22, b32, c2);
    lemma_assoc4(a0, a1, a2, a3, b03, b13, b23, b33, c3);
}

/// The product is associative: `(a * b) * c == a * (b * c)` whenever the
/// products on the left exist; then the ones on the right exist too.
pub proof fn law_product_associative(a: Matrix, b: Matrix, c: Matrix, ab: Matrix, bc: Matrix, abc: Matrix)
    requires
        is_product(a, b, ab),
        is_product(b, c, bc),
        is_product(ab, c, abc),
    ensures
        product_fits(a, bc),
        is_product(a, bc, abc),
{
    assert forall|i: int, j: int| 0 <= i < 4 && 0 <= j < 4 implies #[trigger] product_entry(a, bc, i, j)
        == entry(abc, i, j) by {
        lemma_assoc_entry(a, b, c, ab, bc, i, j);
    }
}

} // verus!
