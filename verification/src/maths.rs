use vstd::prelude::*;
use vstd::std_specs::cmp::{PartialOrdSpec, PartialOrdIs};

verus! {

/// What `clamp` returns for values whose comparisons behave as their
/// `partial_cmp_spec` says.
pub open spec fn clamp_spec<T: PartialOrd>(val: T, low: T, high: T) -> T {
    if val.is_lt(&low) {
        low
    } else if val.is_gt(&high) {
        high
    } else {
        val
    }
}

/// Clamps `val` into `[low, high]`: `low` when `val < low`, else `high` when
/// `val > high`, else `val` itself.
pub fn clamp<T: PartialOrd + Copy>(val: T, low: T, high: T) -> (r: T)
    ensures
        r == val || r == low || r == high,
        T::obeys_partial_cmp_spec() ==> r == clamp_spec(val, low, high),
{
    if val < low {
        low
    } else if val > high {
        high
    } else {
        val
    }
}

} // verus!

verus! {

/// What `min` returns for values whose comparisons behave as their
/// `partial_cmp_spec` says.
pub open spec fn min_spec<T: PartialOrd>(a: T, b: T) -> T {
    if a.is_lt(&b) {
        a
    } else {
        b
    }
}

/// What `max` returns for values whose comparisons behave as their
/// `partial_cmp_spec` says.
pub open spec fn max_spec<T: PartialOrd>(a: T, b: T) -> T {
    if a.is_gt(&b) {
        a
    } else {
        b
    }
}

/// Smaller of `a` and `b` by `PartialOrd::lt`: `a` when `a < b`, else `b`.
pub fn min<T: PartialOrd + Copy>(a: T, b: T) -> (r: T)
    ensures
        r == a || r == b,
        T::obeys_partial_cmp_spec() ==> r == min_spec(a, b),
{
    if a.lt(&b) {
        a
    } else {
        b
    }
}

/// Larger of `a` and `b` by `PartialOrd::gt`: `a` when `a > b`, else `b`.
pub fn max<T: PartialOrd + Copy>(a: T, b: T) -> (r: T)
    ensures
        r == a || r == b,
        T::obeys_partial_cmp_spec() ==> r == max_spec(a, b),
{
    if a.gt(&b) {
        a
    } else {
        b
    }
}

/// `n` is a power of two: 1, 2, 4, 8, ...
pub open spec fn is_pow2(n: int) -> bool
    decreases n,
{
    if n <= 0 {
        false
    } else if n == 1 {
        true
    } else {
        n % 2 == 0 && is_pow2(n / 2)
    }
}

proof fn lemma_single_bit_is_pow2(v: u32)
    ensures
        (v != 0 && v & ((v - 1) as u32) == 0) == is_pow2(v as int),
    decreases v,
{
    if v == 0 {
    } else if v == 1 {
        assert(1u32 & ((1u32 - 1) as u32) == 0) by (bit_vector);
    } else if v % 2 == 1 {
        assert(v & ((v - 1) as u32) != 0) by (bit_vector)
            requires
                v % 2 == 1,
                v > 1,
        ;
    } else {
        let h: u32 = v / 2;
        assert((v & ((v - 1) as u32) == 0) == (h & ((h - 1) as u32) == 0)) by (bit_vector)
            requires
                v % 2 == 0,
                v >= 2,
                h == v / 2,
        ;
        lemma_single_bit_is_pow2(h);
    }
}

/// Whether `v` is a power of two (1, 2, 4, ...); never true of zero or of a
/// negative number.
pub fn is_power_of_2(v: i32) -> (r: bool)
    requires
        v > i32::MIN,
    ensures
        r == is_pow2(v as int),
{
    let r = (v != 0) && (v & (v - 1)) == 0;
    proof {
        if v > 0 {
            let u: u32 = v as u32;
            assert((v & ((v - 1) as i32) == 0) == (u & ((u - 1) as u32) == 0)) by (bit_vector)
                requires
                    v > 0,
                    u == v as u32,
            ;
            lemma_single_bit_is_pow2(u);
        } else if v < 0 {
            assert(v & ((v - 1) as i32) != 0) by (bit_vector)
                requires
                    v < 0,
                    v > i32::MIN,
            ;
        }
    }
    r
}

/// The result of spreading the highest set bit of `x` over all lower bits.
pub open spec fn smear(x: i32) -> i32 {
    let a = x | (x >> 1u32);
    let b = a | (a >> 2u32);
    let c = b | (b >> 4u32);
    let d = c | (c >> 8u32);
    d | (d >> 16u32)
}

/// Rounds `v` up to the next power of two: the least power of two that is at
/// least `v` when `v` is positive, and 0 when `v` is zero or negative.
pub fn round_up_pow_2(v: i32) -> (r: i32)
    requires
        i32::MIN < v <= 0x4000_0000,
    ensures
        v <= 0 ==> r == 0,
        v > 0 ==> is_pow2(r as int) && v <= r && r < 2 * v,
{
    let mut v = v;
    v -= 1;
    let ghost x = v;
    v |= v >> 1u32;
    v |= v >> 2u32;
    v |= v >> 4u32;
    v |= v >> 8u32;
    v |= v >> 16u32;
    proof {
        let s = v;
        assert(s == smear(x));
        if x < 0 {
            assert(smear(x) == -1) by (bit_vector)
                requires
                    x < 0,
            ;
        } else {
            assert(smear(x) >= x && smear(x) < 0x4000_0000 && (x == 0 ==> smear(x) == 0) && (x > 0
                ==> smear(x) < 2 * x) && ((smear(x) + 1) as i32) & smear(x) == 0) by (bit_vector)
                requires
                    0 <= x < 0x4000_0000,
            ;
            let r: u32 = (s + 1) as u32;
            assert(r != 0 && r & ((r - 1) as u32) == 0) by (bit_vector)
                requires
                    0 <= s < 0x4000_0000,
                    ((s + 1) as i32) & s == 0,
                    r == (s + 1) as u32,
            ;
            lemma_single_bit_is_pow2(r);
        }
    }
    v + 1
}

} // verus!

verus! {

/// `pred` is true exactly on the indices below `k` among `0..size`: a
/// predicate that holds on a prefix of the range and fails from `k` on.
pub open spec fn splits_at<P: Fn(usize) -> bool>(pred: P, size: usize, k: int) -> bool {
    &&& 0 <= k <= size
    &&& forall|i: usize, b: bool|
        #![trigger call_ensures(pred, (i,), b)]
        i < size && call_ensures(pred, (i,), b) ==> (b <==> i < k)
}

/// The index `find_interval` reports when `pred` first fails at `k`:
/// `k - 1` clamped into `[0, size - 2]`, then taken as a `usize` (which turns
/// the one negative case, `size == 1` with `k == 1`, into `usize::MAX`).
pub open spec fn interval_index(k: int, size: int) -> int {
    let c = if k - 1 < 0 {
        0
    } else if k - 1 > size - 2 {
        size - 2
    } else {
        k - 1
    };
    if c >= 0 {
        c
    } else {
        usize::MAX as int
    }
}

/// Binary search over `0..size` for the last index at which `pred` holds,
/// clamped so that the result can start an interval `[r, r + 1]` inside the
/// range.
pub fn find_interval<P: Fn(usize) -> bool>(size: usize, pred: P) -> (r: usize)
    requires
        size <= isize::MAX,
        forall|i: usize| i < size ==> call_requires(pred, (i,)),
    ensures
        forall|k: int| splits_at(pred, size, k) ==> r == interval_index(k, size as int),
        size >= 2 ==> r <= size - 2,
{
    let mut first: usize = 0;
    let mut len: usize = size;
    while len > 0
        invariant
            size <= isize::MAX,
            forall|i: usize| i < size ==> call_requires(pred, (i,)),
            first + len <= size,
            forall|k: int| splits_at(pred, size, k) ==> first <= k <= first + len,
        decreases len,
    {
        let half = len >> 1;
        assert(half == len / 2) by (bit_vector)
            requires
                half == len >> 1,
        ;
        let middle = first + half;
        let b = pred(middle);
        if b {
            first = middle + 1;
            len -= half + 1;
        } else {
            len = half;
        }
    }
    let fi: isize = first as isize;
    let hi: isize = size as isize - 2;
    let c = clamp(fi - 1, 0, hi);
    proof {
        assert(c == interval_index(first as int, size as int) || c == -1isize);
        if c < 0 {
            assert(c == -1isize);
            let m: usize = usize::MAX;
            assert(m <= (-1isize) as usize) by (bit_vector);
        }
    }
    c as usize
}

} // verus!

verus! {

/// Clamping an integer into a non-empty range lands inside it, and leaves a
/// value already inside unchanged.
pub proof fn law_clamp_in_range(val: i64, low: i64, high: i64)
    requires
        low <= high,
    ensures
        low <= clamp_spec(val, low, high) <= high,
        low <= val <= high ==> clamp_spec(val, low, high) == val,
        clamp_spec(clamp_spec(val, low, high), low, high) == clamp_spec(val, low, high),
{
}

/// On integers `min` and `max` are symmetric and bracket their arguments.
pub proof fn law_min_max(a: i64, b: i64)
    ensures
        min_spec(a, b) == min_spec(b, a),
        max_spec(a, b) == max_spec(b, a),
        min_spec(a, b) <= a && min_spec(a, b) <= b,
        max_spec(a, b) >= a && max_spec(a, b) >= b,
        min_spec(a, b) + max_spec(a, b) == a + b,
{
}

proof fn lemma_pow2_gap(p: int, q: int)
    requires
        is_pow2(p),
        is_pow2(q),
        p < q,
    ensures
        2 * p <= q,
    decreases p,
{
    if p == 1 {
        if q % 2 == 1 {
            assert(q == 1);
        }
    } else {
        assert(p % 2 == 0 && is_pow2(p / 2));
        if q == 1 {
        } else {
            assert(q % 2 == 0 && is_pow2(q / 2));
            lemma_pow2_gap(p / 2, q / 2);
        }
    }
}

/// The power of two that `round_up_pow_2` returns for `v` is `v` itself
/// exactly when `v` is a power of two, so `is_power_of_2(v)` holds iff
/// rounding `v` up leaves it unchanged.
pub proof fn law_round_up_fixed_points(v: i32, r: i32)
    requires
        0 < v,
        is_pow2(r as int),
        v <= r < 2 * v,
    ensures
        is_pow2(v as int) <==> r == v,
{
    if is_pow2(v as int) && v < r {
        lemma_pow2_gap(v as int, r as int);
    }
}

/// For a predicate that holds on a prefix `0..k` of the range, with both a
/// true and a false index, `find_interval` reports the last true index:
/// `pred` holds there and fails right after it.
pub proof fn law_find_interval_brackets<P: Fn(usize) -> bool>(pred: P, size: usize, k: int)
    requires
        splits_at(pred, size, k),
        1 <= k < size,
    ensures
        interval_index(k, size as int) == k - 1,
        forall|b: bool| #[trigger] call_ensures(pred, ((k - 1) as usize,), b) ==> b,
        forall|b: bool| #[trigger] call_ensures(pred, (k as usize,), b) ==> !b,
{
    assert forall|b: bool| #[trigger] call_ensures(pred, ((k - 1) as usize,), b) implies b by {
        assert(((k - 1) as usize) < size);
    }
    assert forall|b: bool| #[trigger] call_ensures(pred, (k as usize,), b) implies !b by {
        assert((k as usize) < size);
    }
}

} // verus!
