use vstd::prelude::*;
use crate::rng::{Rng, pcg_output, pcg_step, pcg_steps, bounded_draws, bounded_value, lemma_pcg_steps_add};
use crate::vector::Point2;
use crate::maths::is_pow2;
use vstd::std_specs::bits::{u32_trailing_zeros, axiom_u32_trailing_zeros};

verus! {

/// `<[T]>::swap`: exchanges the elements at `a` and `b` (std documents that it
/// panics when either is out of bounds, and that `a == b` changes nothing).
#[verifier::external_body]
fn slice_swap<T>(s: &mut [T], a: usize, b: usize)
    requires
        a < old(s)@.len(),
        b < old(s)@.len(),
    ensures
        final(s)@ == old(s)@.update(a as int, old(s)@[b as int]).update(b as int, old(s)@[a as int]),
{
    s.swap(a, b)
}

/// `perm` is a permutation of `0..n`.
pub open spec fn is_permutation(perm: Seq<int>, n: int) -> bool {
    &&& perm.len() == n
    &&& forall|p: int| 0 <= p < n ==> 0 <= #[trigger] perm[p] < n
    &&& forall|p: int, q: int| 0 <= p < q < n ==> #[trigger] perm[p] != #[trigger] perm[q]
}

/// `after` holds the `count` blocks of `dims` consecutive elements of
/// `before` that start at `offset`, in the order `perm`, and every element
/// outside those blocks as it was.
pub open spec fn blocks_permuted_at<T>(
    before: Seq<T>,
    after: Seq<T>,
    offset: int,
    count: int,
    dims: int,
    perm: Seq<int>,
) -> bool {
    &&& after.len() == before.len()
    &&& is_permutation(perm, count)
    &&& forall|p: int, j: int|
        0 <= p < count && 0 <= j < dims ==> #[trigger] after[offset + dims * p + j] == before[offset
            + dims * perm[p] + j]
    &&& forall|k: int|
        0 <= k < before.len() && !(offset <= k < offset + dims * count) ==> #[trigger] after[k]
            == before[k]
}

/// `after` holds the first `count` blocks of `dims` consecutive elements of
/// `before` in the order `perm`, and the elements past those blocks as they were.
pub open spec fn blocks_permuted<T>(
    before: Seq<T>,
    after: Seq<T>,
    count: int,
    dims: int,
    perm: Seq<int>,
) -> bool {
    blocks_permuted_at(before, after, 0, count, dims, perm)
}

/// `s` with the first `j` elements of the blocks `a` and `b` of `dims`
/// elements from `offset` exchanged.
pub open spec fn swap_block_prefix<T>(s: Seq<T>, offset: int, dims: int, a: int, b: int, j: int) -> Seq<T> {
    Seq::new(
        s.len(),
        |k: int|
            if offset + dims * a <= k < offset + dims * a + j {
                s[k - dims * a + dims * b]
            } else if offset + dims * b <= k < offset + dims * b + j {
                s[k - dims * b + dims * a]
            } else {
                s[k]
            },
    )
}

/// `s` with the blocks `a` and `b` of `dims` elements from `offset`
/// exchanged.
pub open spec fn swap_blocks<T>(s: Seq<T>, offset: int, dims: int, a: int, b: int) -> Seq<T> {
    swap_block_prefix(s, offset, dims, a, b, dims)
}

/// The generator's state after the first `i` steps of a shuffle of `count`
/// blocks from `state`: step `i` takes the draws of a bounded draw below
/// `count - i`.
pub open spec fn shuffle_rng(count: u32, state: u64, inc: u64, i: nat) -> u64
    decreases i,
{
    if i == 0 {
        state
    } else {
        let st = shuffle_rng(count, state, inc, (i - 1) as nat);
        pcg_steps(st, inc, bounded_draws(st, inc, (count - (i - 1)) as u32))
    }
}

/// The block that step `i` of the shuffle exchanges with block `i`: `i`
/// plus the bounded draw below `count - i`.
pub open spec fn shuffle_pick(count: u32, state: u64, inc: u64, i: nat) -> int {
    i + bounded_value(shuffle_rng(count, state, inc, i), inc, (count - i) as u32)
}

/// `s` after the first `i` steps of the shuffle of its `count` blocks of
/// `dims` elements from `offset`: step `i` exchanges block `i` with block
/// `shuffle_pick(.., i)`.
pub open spec fn shuffle_prefix<T>(
    s: Seq<T>,
    offset: int,
    count: u32,
    dims: int,
    state: u64,
    inc: u64,
    i: nat,
) -> Seq<T>
    decreases i,
{
    if i == 0 {
        s
    } else {
        swap_blocks(
            shuffle_prefix(s, offset, count, dims, state, inc, (i - 1) as nat),
            offset,
            dims,
            i - 1,
            shuffle_pick(count, state, inc, (i - 1) as nat),
        )
    }
}

/// `s` with its `count` blocks of `dims` elements from `offset` shuffled by
/// a generator in `state` on stream `inc`.
pub open spec fn shuffled<T>(s: Seq<T>, offset: int, count: u32, dims: int, state: u64, inc: u64) -> Seq<T> {
    shuffle_prefix(s, offset, count, dims, state, inc, count as nat)
}

proof fn lemma_blocks_apart(dims: int, p: int, q: int)
    requires
        0 <= p < q,
        0 <= dims,
    ensures
        dims * p + dims <= dims * q,
{
    assert(dims * p + dims <= dims * q) by (nonlinear_arith)
        requires
            0 <= p < q,
            0 <= dims,
    ;
}

proof fn lemma_block_index(dims: int, count: int, p: int, j: int)
    requires
        0 <= p < count,
        0 <= j < dims,
    ensures
        0 <= dims * p + j < dims * count,
        dims * p <= dims * p + j,
{
    assert(dims * p + j < dims * count) by (nonlinear_arith)
        requires
            0 <= p < count,
            0 <= j < dims,
    ;
    assert(0 <= dims * p) by (nonlinear_arith)
        requires
            0 <= p,
            0 <= dims,
    ;
}

proof fn lemma_block_index_unique(dims: int, p: int, j: int, q: int, k: int)
    requires
        0 <= p,
        0 <= q,
        0 <= j < dims,
        0 <= k < dims,
        dims * p + j == dims * q + k,
    ensures
        p == q,
        j == k,
{
    if p < q {
        assert(dims * p + j < dims * q + k) by (nonlinear_arith)
            requires
                p < q,
                0 <= j < dims,
                0 <= k,
        ;
    } else if q < p {
        assert(dims * q + k < dims * p + j) by (nonlinear_arith)
            requires
                q < p,
                0 <= k < dims,
                0 <= j,
        ;
    }
}

/// Randomly reorders the `count` blocks of `n_dimensions` consecutive
/// samples of `samp` that start at `offset`, drawing one bounded random
/// number per block.
pub fn shuffle_at<T>(samp: &mut [T], offset: usize, count: u32, n_dimensions: u32, rng: &mut Rng)
    requires
        offset + n_dimensions as int * count as int <= old(samp)@.len(),
        n_dimensions as int * count as int <= 0x1_0000_0000int,
    ensures
        final(rng).inc() == old(rng).inc(),
        final(rng).state() == shuffle_rng(count, old(rng).state(), old(rng).inc(), count as nat),
        final(samp)@ == shuffled(
            old(samp)@,
            offset as int,
            count,
            n_dimensions as int,
            old(rng).state(),
            old(rng).inc(),
        ),
        exists|perm: Seq<int>|
            blocks_permuted_at(
                old(samp)@,
                final(samp)@,
                offset as int,
                count as int,
                n_dimensions as int,
                perm,
            ),
{
    let ghost before = samp@;
    let samp_len = samp.len();
    let ghost mut perm = Seq::new(count as nat, |p: int| p);
    let ghost dims = n_dimensions as int;
    let ghost cnt = count as int;
    let ghost off = offset as int;
    for i in 0..count
        invariant
            dims == n_dimensions,
            cnt == count,
            off + dims * cnt <= before.len(),
            samp_len == before.len(),
            dims * cnt <= 0x1_0000_0000int,
            rng.inc() == old(rng).inc(),
            before == old(samp)@,
            off == offset,
            blocks_permuted_at(before, samp@, off, cnt, dims, perm),
            samp@ == shuffle_prefix(before, off, count, dims, old(rng).state(), old(rng).inc(), i as nat),
            rng.state() == shuffle_rng(count, old(rng).state(), old(rng).inc(), i as nat),
    {
        let ghost outer_prev = samp@;
        let other = i + rng.uniform_u32_bounded(count - i);
        proof {
            assert(other == shuffle_pick(count, old(rng).state(), old(rng).inc(), i as nat));
        }
        let ghost swapped = perm.update(i as int, perm[other as int]).update(
            other as int,
            perm[i as int],
        );
        proof {
            assert(is_permutation(swapped, cnt)) by {
                assert forall|p: int, q: int| 0 <= p < q < cnt implies #[trigger] swapped[p]
                    != #[trigger] swapped[q] by {
                    if p != i && p != other && q != i && q != other {
                        assert(perm[p] != perm[q]);
                    } else if p == i && q == other || p == other && q == i {
                        assert(perm[i as int] != perm[other as int]);
                    } else if p == i || p == other {
                        assert(perm[i as int] != perm[q] && perm[other as int] != perm[q]);
                    } else {
                        assert(perm[i as int] != perm[p] && perm[other as int] != perm[p]);
                    }
                }
            }
        }
        for j in 0..n_dimensions
            invariant
                dims == n_dimensions,
                cnt == count,
                off == offset,
                samp_len == before.len(),
                i < count,
                i <= other < count,
                off + dims * cnt <= before.len(),
                dims * cnt <= 0x1_0000_0000int,
                is_permutation(perm, cnt),
                is_permutation(swapped, cnt),
                swapped == perm.update(i as int, perm[other as int]).update(
                    other as int,
                    perm[i as int],
                ),
                samp@.len() == before.len(),
                forall|p: int, k: int|
                    0 <= p < cnt && 0 <= k < dims ==> #[trigger] samp@[off + dims * p + k] == before[off
                        + dims * (if k < j {
                        swapped[p]
                    } else {
                        perm[p]
                    }) + k],
                forall|k: int|
                    0 <= k < before.len() && !(off <= k < off + dims * cnt) ==> #[trigger] samp@[k]
                        == before[k],
                outer_prev.len() == before.len(),
                samp@ == swap_block_prefix(outer_prev, off, dims, i as int, other as int, j as int),
        {
            proof {
                lemma_block_index(dims, cnt, i as int, j as int);
                lemma_block_index(dims, cnt, other as int, j as int);
            }
            let a = offset + (n_dimensions * i + j) as usize;
            let b = offset + (n_dimensions * other + j) as usize;
            let ghost prev = samp@;
            slice_swap(samp, a, b);
            proof {
                assert forall|p: int, k: int| 0 <= p < cnt && 0 <= k < dims implies #[trigger] samp@[
                    off + dims * p + k] == before[off + dims * (if k < j + 1 {
                    swapped[p]
                } else {
                    perm[p]
                }) + k] by {
                    lemma_block_index(dims, cnt, p, k);
                    let idx = off + dims * p + k;
                    if idx == a {
                        lemma_block_index_unique(dims, p, k, i as int, j as int);
                        assert(samp@[idx] == prev[b as int]);
                        assert(prev[off + dims * other + j] == before[off + dims * perm[other as int] + j]);
                    } else if idx == b {
                        lemma_block_index_unique(dims, p, k, other as int, j as int);
                        assert(samp@[idx] == prev[a as int]);
                        assert(prev[off + dims * i + j] == before[off + dims * perm[i as int] + j]);
                    } else {
                        assert(samp@[idx] == prev[idx]);
                        if k == j {
                            assert(p != i && p != other);
                        }
                    }
                }
                assert forall|k: int|
                    0 <= k < before.len() && !(off <= k < off + dims * cnt) implies #[trigger] samp@[k]
                    == before[k] by {
                    assert(samp@[k] == prev[k]);
                }
                if i < other {
                    lemma_blocks_apart(dims, i as int, other as int);
                }
                let nxt = swap_block_prefix(outer_prev, off, dims, i as int, other as int, j + 1);
                assert forall|k: int| 0 <= k < samp@.len() implies #[trigger] samp@[k] == nxt[k] by {
                    if k != a && k != b {
                        assert(samp@[k] == prev[k]);
                    }
                }
                assert(samp@ =~= nxt);
            }
        }
        proof {
            perm = swapped;
        }
    }
}


/// Randomly reorders the first `count` blocks of `n_dimensions` consecutive
/// samples of `samp`, drawing one bounded random number per block.
pub fn shuffle<T>(samp: &mut [T], count: u32, n_dimensions: u32, rng: &mut Rng)
    requires
        n_dimensions as int * count as int <= old(samp)@.len(),
        n_dimensions as int * count as int <= 0x1_0000_0000int,
    ensures
        final(rng).inc() == old(rng).inc(),
        final(rng).state() == shuffle_rng(count, old(rng).state(), old(rng).inc(), count as nat),
        final(samp)@ == shuffled(old(samp)@, 0, count, n_dimensions as int, old(rng).state(), old(rng).inc()),
        exists|perm: Seq<int>|
            blocks_permuted(old(samp)@, final(samp)@, count as int, n_dimensions as int, perm),
{
    let ghost before = samp@;
    shuffle_at(samp, 0, count, n_dimensions, rng);
    proof {
        let perm = choose|perm: Seq<int>|
            blocks_permuted_at(before, samp@, 0, count as int, n_dimensions as int, perm);
        assert(blocks_permuted(before, samp@, count as int, n_dimensions as int, perm));
    }
}

} // verus!

verus! {

/// Generator matrix of the base-2 van der Corput sequence: column `k` is bit
/// `31 - k`, so that the sequence reverses the bits of the sample number.
pub const CVAN_DER_CORPUT: [u32; 32] = [
    0x80000000, 0x40000000, 0x20000000, 0x10000000, 0x8000000, 0x4000000, 0x2000000, 0x1000000,
    0x800000, 0x400000, 0x200000, 0x100000, 0x80000, 0x40000, 0x20000, 0x10000, 0x8000, 0x4000,
    0x2000, 0x1000, 0x800, 0x400, 0x200, 0x100, 0x80, 0x40, 0x20, 0x10, 0x8, 0x4, 0x2, 0x1,
];

} // verus!

verus! {

/// Generator matrices of the first two dimensions of the Sobol sequence.
pub const CSOBOL: [[u32; 32]; 2] = [
    [
        0x80000000, 0x40000000, 0x20000000, 0x10000000, 0x8000000, 0x4000000, 0x2000000, 0x1000000,
        0x800000, 0x400000, 0x200000, 0x100000, 0x80000, 0x40000, 0x20000, 0x10000, 0x8000, 0x4000,
        0x2000, 0x1000, 0x800, 0x400, 0x200, 0x100, 0x80, 0x40, 0x20, 0x10, 0x8, 0x4, 0x2, 0x1,
    ],
    [
        0x80000000, 0xc0000000, 0xa0000000, 0xf0000000, 0x88000000, 0xcc000000, 0xaa000000,
        0xff000000, 0x80800000, 0xc0c00000, 0xa0a00000, 0xf0f00000, 0x88880000, 0xcccc0000,
        0xaaaa0000, 0xffff0000, 0x80008000, 0xc000c000, 0xa000a000, 0xf000f000, 0x88008800,
        0xcc00cc00, 0xaa00aa00, 0xff00ff00, 0x80808080, 0xc0c0c0c0, 0xa0a0a0a0, 0xf0f0f0f0,
        0x88888888, 0xcccccccc, 0xaaaaaaaa, 0xffffffff,
    ],
];

/// Point `i` of the sequence with generator matrix `c`, enumerated in Gray
/// code order and scrambled by `scramble`: the scramble with column
/// `trailing_zeros(k)` of `c` xored in for each `k` from 1 to `i`. Samples
/// are 32-bit fixed-point fractions of one.
pub open spec fn gray_code(c: Seq<u32>, scramble: u32, i: nat) -> u32
    decreases i,
{
    if i == 0 {
        scramble
    } else {
        gray_code(c, scramble, (i - 1) as nat) ^ c[u32_trailing_zeros(i as u32) as int]
    }
}

/// Writes the first `n` points of the scrambled Gray-code sequence with
/// generator matrix `c` to `p`.
pub fn gray_code_sample(c: &[u32], n: u32, scramble: u32, p: &mut [u32])
    requires
        c@.len() >= 32,
        n <= old(p)@.len(),
    ensures
        final(p)@.len() == old(p)@.len(),
        forall|i: int| 0 <= i < n ==> #[trigger] final(p)@[i] == gray_code(c@, scramble, i as nat),
        forall|i: int| n <= i < old(p)@.len() ==> #[trigger] final(p)@[i] == old(p)@[i],
{
    let ghost before = p@;
    let mut v = scramble;
    for i in 0..n
        invariant
            c@.len() >= 32,
            n <= before.len(),
            p@.len() == before.len(),
            v == gray_code(c@, scramble, i as nat),
            forall|k: int| 0 <= k < i ==> #[trigger] p@[k] == gray_code(c@, scramble, k as nat),
            forall|k: int| i <= k < before.len() ==> #[trigger] p@[k] == before[k],
    {
        p[i as usize] = v;
        let next = i + 1;
        proof {
            axiom_u32_trailing_zeros(next);
        }
        v = v ^ c[next.trailing_zeros() as usize];
    }
}

/// Writes the first `n` points of the scrambled two-dimensional Gray-code
/// sequence with generator matrices `c0` and `c1` to `p`.
pub fn gray_code_sample_2d(c0: &[u32], c1: &[u32], n: u32, scramble: Point2<i32>, p: &mut [Point2<u32>])
    requires
        c0@.len() >= 32,
        c1@.len() >= 32,
        n <= old(p)@.len(),
    ensures
        final(p)@.len() == old(p)@.len(),
        forall|i: int|
            0 <= i < n ==> #[trigger] final(p)@[i] == (Point2 {
                x: gray_code(c0@, scramble.x as u32, i as nat),
                y: gray_code(c1@, scramble.y as u32, i as nat),
            }),
        forall|i: int| n <= i < old(p)@.len() ==> #[trigger] final(p)@[i] == old(p)@[i],
{
    let ghost before = p@;
    let mut v0 = scramble.x as u32;
    let mut v1 = scramble.y as u32;
    for i in 0..n
        invariant
            c0@.len() >= 32,
            c1@.len() >= 32,
            n <= before.len(),
            p@.len() == before.len(),
            v0 == gray_code(c0@, scramble.x as u32, i as nat),
            v1 == gray_code(c1@, scramble.y as u32, i as nat),
            forall|k: int|
                0 <= k < i ==> #[trigger] p@[k] == (Point2 {
                    x: gray_code(c0@, scramble.x as u32, k as nat),
                    y: gray_code(c1@, scramble.y as u32, k as nat),
                }),
            forall|k: int| i <= k < before.len() ==> #[trigger] p@[k] == before[k],
    {
        p[i as usize] = Point2 { x: v0, y: v1 };
        let next = i + 1;
        proof {
            axiom_u32_trailing_zeros(next);
        }
        let t = next.trailing_zeros() as usize;
        v0 = v0 ^ c0[t];
        v1 = v1 ^ c1[t];
    }
}

} // verus!

verus! {

/// `after` holds the `n_pix` blocks of `n_per` elements at the start of
/// `before` reordered twice: within each block by `inner[b]`, then the blocks
/// themselves by `outer`; the elements past those blocks stay as they were.
pub open spec fn strata_permuted<T>(
    before: Seq<T>,
    after: Seq<T>,
    n_per: int,
    n_pix: int,
    outer: Seq<int>,
    inner: Seq<Seq<int>>,
) -> bool {
    &&& after.len() == before.len()
    &&& is_permutation(outer, n_pix)
    &&& inner.len() == n_pix
    &&& forall|b: int| 0 <= b < n_pix ==> is_permutation(#[trigger] inner[b], n_per)
    &&& forall|p: int, j: int|
        0 <= p < n_pix && 0 <= j < n_per ==> #[trigger] after[n_per * p + j] == before[n_per
            * outer[p] + inner[outer[p]][j]]
    &&& forall|k: int| n_per * n_pix <= k < before.len() ==> #[trigger] after[k] == before[k]
}

/// `before` with its first `count` elements replaced by `point(0)` to
/// `point(count - 1)`.
pub open spec fn overlay<T>(before: Seq<T>, count: int, point: spec_fn(int) -> T) -> Seq<T> {
    Seq::new(before.len(), |k: int| if k < count { point(k) } else { before[k] })
}

/// `after` holds the points `point(0)` to `point(n_per * n_pix - 1)` laid
/// out in `n_pix` strata of `n_per` points: stratum `b` of the sequence holds
/// points `n_per * b` on, the strata are shuffled among themselves and the
/// points within each stratum; past them `after` is `before`.
pub open spec fn stratified<T>(
    before: Seq<T>,
    after: Seq<T>,
    n_per: int,
    n_pix: int,
    point: spec_fn(int) -> T,
) -> bool {
    exists|outer: Seq<int>, inner: Seq<Seq<int>>|
        #[trigger] strata_permuted(
            overlay(before, n_per * n_pix, point),
            after,
            n_per,
            n_pix,
            outer,
            inner,
        )
}

/// The generator's state after the samples within the first `i` strata of
/// `n_per` samples are shuffled, from `state`.
pub open spec fn strata_inner_rng(n_per: u32, state: u64, inc: u64, i: nat) -> u64
    decreases i,
{
    if i == 0 {
        state
    } else {
        shuffle_rng(n_per, strata_inner_rng(n_per, state, inc, (i - 1) as nat), inc, n_per as nat)
    }
}

/// `s` after the samples within each of its first `i` strata of `n_per`
/// samples are shuffled, stratum after stratum, from `state`.
pub open spec fn strata_inner<T>(s: Seq<T>, n_per: u32, state: u64, inc: u64, i: nat) -> Seq<T>
    decreases i,
{
    if i == 0 {
        s
    } else {
        shuffled(
            strata_inner(s, n_per, state, inc, (i - 1) as nat),
            n_per * (i - 1),
            n_per,
            1,
            strata_inner_rng(n_per, state, inc, (i - 1) as nat),
            inc,
        )
    }
}

/// `s` after `shuffle_strata`: the samples within each of the `n_pix` strata
/// shuffled, then the strata themselves, by a generator in `state`.
pub open spec fn strata_shuffled<T>(s: Seq<T>, n_per: u32, n_pix: u32, state: u64, inc: u64) -> Seq<T> {
    shuffled(
        strata_inner(s, n_per, state, inc, n_pix as nat),
        0,
        n_pix,
        n_per as int,
        strata_inner_rng(n_per, state, inc, n_pix as nat),
        inc,
    )
}

/// The generator's state after `shuffle_strata` from `state`.
pub open spec fn strata_rng(n_per: u32, n_pix: u32, state: u64, inc: u64) -> u64 {
    shuffle_rng(n_pix, strata_inner_rng(n_per, state, inc, n_pix as nat), inc, n_pix as nat)
}

/// Shuffles the `n_pix` blocks of `n_per` samples at the start of `samples`:
/// first the samples within each block, then the blocks.
fn shuffle_strata<T>(samples: &mut [T], n_per: u32, n_pix: u32, rng: &mut Rng)
    requires
        n_per as int * n_pix as int <= old(samples)@.len(),
        n_per as int * n_pix as int <= u32::MAX,
    ensures
        final(rng).inc() == old(rng).inc(),
        final(samples)@ == strata_shuffled(old(samples)@, n_per, n_pix, old(rng).state(), old(rng).inc()),
        final(rng).state() == strata_rng(n_per, n_pix, old(rng).state(), old(rng).inc()),
        exists|outer: Seq<int>, inner: Seq<Seq<int>>|
            #[trigger] strata_permuted(
                old(samples)@,
                final(samples)@,
                n_per as int,
                n_pix as int,
                outer,
                inner,
            ),
{
    let ghost before = samples@;
    let ghost n = n_per as int;
    let ghost m = n_pix as int;
    let ghost mut inner: Seq<Seq<int>> = Seq::empty();
    for i in 0..n_pix
        invariant
            n == n_per,
            m == n_pix,
            n * m <= before.len(),
            n * m <= u32::MAX,
            samples@.len() == before.len(),
            rng.inc() == old(rng).inc(),
            inner.len() == i,
            forall|b: int| 0 <= b < i ==> is_permutation(#[trigger] inner[b], n),
            forall|b: int, j: int|
                0 <= b < i && 0 <= j < n ==> #[trigger] samples@[n * b + j] == before[n * b
                    + inner[b][j]],
            forall|k: int| n * i <= k < before.len() ==> #[trigger] samples@[k] == before[k],
            samples@ == strata_inner(before, n_per, old(rng).state(), old(rng).inc(), i as nat),
            rng.state() == strata_inner_rng(n_per, old(rng).state(), old(rng).inc(), i as nat),
    {
        proof {
            assert(n * i + n == n * (i + 1) && n * (i + 1) <= n * m) by (nonlinear_arith)
                requires
                    0 <= i < m,
                    0 <= n,
            ;
        }
        let off = (n_per as usize) * (i as usize);
        let ghost mid = samples@;
        shuffle_at(samples, off, n_per, 1, rng);
        proof {
            let perm = choose|perm: Seq<int>| blocks_permuted_at(mid, samples@, off as int, n, 1, perm);
            assert forall|b: int, j: int| 0 <= b < i + 1 && 0 <= j < n implies #[trigger] samples@[n
                * b + j] == before[n * b + inner.push(perm)[b][j]] by {
                if b < i {
                    lemma_block_index(n, i as int, b, j);
                    assert(samples@[n * b + j] == mid[n * b + j]);
                    assert(inner.push(perm)[b] == inner[b]);
                } else {
                    assert(samples@[off + 1 * j + 0] == mid[off + 1 * perm[j] + 0]);
                    assert(inner.push(perm)[b] == perm);
                }
            }
            assert forall|k: int| n * (i + 1) <= k < before.len() implies #[trigger] samples@[k]
                == before[k] by {
                assert(samples@[k] == mid[k]);
            }
            inner = inner.push(perm);
        }
    }
    let ghost mid = samples@;
    shuffle(samples, n_pix, n_per, rng);
    proof {
        let outer = choose|outer: Seq<int>| blocks_permuted(mid, samples@, m, n, outer);
        assert forall|p: int, j: int| 0 <= p < m && 0 <= j < n implies #[trigger] samples@[n * p
            + j] == before[n * outer[p] + inner[outer[p]][j]] by {
            assert(samples@[0 + n * p + j] == mid[0 + n * outer[p] + j]);
            assert(0 <= outer[p] < m);
        }
        assert forall|k: int| n * m <= k < before.len() implies #[trigger] samples@[k]
            == before[k] by {
            assert(samples@[k] == mid[k]);
        }
        assert(strata_permuted(before, samples@, n, m, outer, inner));
    }
}

} // verus!

verus! {

/// The scrambled base-2 van der Corput sequence.
pub open spec fn van_der_corput_point(scramble: u32) -> spec_fn(int) -> u32 {
    |k: int| gray_code(CVAN_DER_CORPUT@, scramble, k as nat)
}

/// The first two dimensions of the Sobol sequence, each with its scramble.
pub open spec fn sobol_point(scramble_x: u32, scramble_y: u32) -> spec_fn(int) -> Point2<u32> {
    |k: int|
        (Point2 {
            x: gray_code(CSOBOL@[0]@, scramble_x, k as nat),
            y: gray_code(CSOBOL@[1]@, scramble_y, k as nat),
        })
}

/// Fills the first `n_per * n_pix` samples with scrambled base-2 van der
/// Corput points, stratified for `n_pix` pixel samples of `n_per` samples
/// each; the scramble is the generator's next draw.
pub fn van_der_corput(n_per: u32, n_pix: u32, samples: &mut [u32], rng: &mut Rng)
    requires
        n_per as int * n_pix as int <= u32::MAX,
        n_per as int * n_pix as int <= old(samples)@.len(),
    ensures
        final(rng).inc() == old(rng).inc(),
        final(samples)@.len() == old(samples)@.len(),
        stratified(
            old(samples)@,
            final(samples)@,
            n_per as int,
            n_pix as int,
            van_der_corput_point(pcg_output(old(rng).state())),
        ),
        final(samples)@ == strata_shuffled(
            overlay(old(samples)@, n_per * n_pix, van_der_corput_point(pcg_output(old(rng).state()))),
            n_per,
            n_pix,
            pcg_step(old(rng).state(), old(rng).inc()),
            old(rng).inc(),
        ),
        final(rng).state() == strata_rng(n_per, n_pix, pcg_step(old(rng).state(), old(rng).inc()), old(rng).inc()),
{
    let scramble = rng.uniform_u32();
    let total = n_per * n_pix;
    let ghost before = samples@;
    gray_code_sample(&CVAN_DER_CORPUT, total, scramble, samples);
    let ghost point = van_der_corput_point(scramble);
    let ghost g = samples@;
    proof {
        assert(g =~= overlay(before, total as int, point));
    }
    shuffle_strata(samples, n_per, n_pix, rng);
    proof {
        let (outer, inner) = choose|outer: Seq<int>, inner: Seq<Seq<int>>|
            strata_permuted(g, samples@, n_per as int, n_pix as int, outer, inner);
        assert(strata_permuted(overlay(before, total as int, point), samples@, n_per as int, n_pix as int, outer, inner));
    }
}

/// Fills the first `n_per * n_pix` samples with scrambled points of the
/// first two dimensions of the Sobol sequence, stratified for `n_pix` pixel
/// samples of `n_per` samples each; the scrambles are the generator's next
/// two draws.
pub fn sobol_2d(n_per: u32, n_pix: u32, samples: &mut [Point2<u32>], rng: &mut Rng)
    requires
        n_per as int * n_pix as int <= u32::MAX,
        n_per as int * n_pix as int <= old(samples)@.len(),
    ensures
        final(rng).inc() == old(rng).inc(),
        final(samples)@.len() == old(samples)@.len(),
        stratified(
            old(samples)@,
            final(samples)@,
            n_per as int,
            n_pix as int,
            sobol_point(
                pcg_output(old(rng).state()),
                pcg_output(pcg_step(old(rng).state(), old(rng).inc())),
            ),
        ),
        final(samples)@ == strata_shuffled(
            overlay(
                old(samples)@,
                n_per * n_pix,
                sobol_point(
                    pcg_output(old(rng).state()),
                    pcg_output(pcg_step(old(rng).state(), old(rng).inc())),
                ),
            ),
            n_per,
            n_pix,
            pcg_step(pcg_step(old(rng).state(), old(rng).inc()), old(rng).inc()),
            old(rng).inc(),
        ),
        final(rng).state() == strata_rng(
            n_per,
            n_pix,
            pcg_step(pcg_step(old(rng).state(), old(rng).inc()), old(rng).inc()),
            old(rng).inc(),
        ),
{
    let sx = rng.uniform_u32();
    let sy = rng.uniform_u32();
    let scramble = Point2::new(sx as i32, sy as i32);
    proof {
        assert((sx as i32) as u32 == sx) by (bit_vector);
        assert((sy as i32) as u32 == sy) by (bit_vector);
    }
    let total = n_per * n_pix;
    let ghost before = samples@;
    gray_code_sample_2d(&CSOBOL[0], &CSOBOL[1], total, scramble, samples);
    let ghost point = sobol_point(sx, sy);
    let ghost g = samples@;
    proof {
        assert(g =~= overlay(before, total as int, point));
    }
    shuffle_strata(samples, n_per, n_pix, rng);
    proof {
        let (outer, inner) = choose|outer: Seq<int>, inner: Seq<Seq<int>>|
            strata_permuted(g, samples@, n_per as int, n_pix as int, outer, inner);
        assert(strata_permuted(overlay(before, total as int, point), samples@, n_per as int, n_pix as int, outer, inner));
    }
}

} // verus!

verus! {

/// The least power of two at or above `x` (1 for 0).
pub open spec fn is_next_pow2(x: int, r: int) -> bool {
    &&& is_pow2(r)
    &&& x <= r
    &&& (r == 1 || r < 2 * x)
}

/// The least power of two at or above `x`, as `usize::next_power_of_two`
/// computes it.
fn next_power_of_two(x: usize) -> (r: usize)
    requires
        x <= usize::MAX / 2 + 1,
    ensures
        is_next_pow2(x as int, r as int),
{
    let mut p: usize = 1;
    while p < x
        invariant
            x <= usize::MAX / 2 + 1,
            is_pow2(p as int),
            p == 1 || p < 2 * x,
        decreases usize::MAX - p,
    {
        proof {
            assert(is_pow2(2 * p as int)) by {
                assert((2 * p as int) / 2 == p as int);
            }
        }
        p = p * 2;
    }
    p
}

/// What a `ZeroTwoSequence` holds, with vectors taken as sequences.
pub struct ZeroTwoView {
    pub spp: usize,
    pub pixel: Point2<i32>,
    pub index: usize,
    pub sizes_1d: Seq<usize>,
    pub sizes_2d: Seq<usize>,
    pub arrays_1d: Seq<Seq<u32>>,
    pub arrays_2d: Seq<Seq<Point2<u32>>>,
    pub offset_1d: usize,
    pub offset_2d: usize,
    pub samples_1d: Seq<Seq<u32>>,
    pub samples_2d: Seq<Seq<Point2<u32>>>,
    pub dim_1d: usize,
    pub dim_2d: usize,
    pub rng: Rng,
}

/// A sampler of (0, 2)-sequence points: for each pixel it lays out, per
/// sampled dimension, `spp` stratified points of the van der Corput (1D) or
/// Sobol (2D) sequence, and arrays of such points that integrators request.
/// Samples are 32-bit fixed-point fractions of one.
#[derive(Clone)]
pub struct ZeroTwoSequence {
    spp: usize,
    current_pixel: Point2<i32>,
    current_pixel_sample_index: usize,
    sample_1d_array_sizes: Vec<usize>,
    sample_2d_array_sizes: Vec<usize>,
    sample_array_1d: Vec<Vec<u32>>,
    sample_array_2d: Vec<Vec<Point2<u32>>>,
    array_1d_offset: usize,
    array_2d_offset: usize,
    samples_1d: Vec<Vec<u32>>,
    samples_2d: Vec<Vec<Point2<u32>>>,
    current_1d_dimension: usize,
    current_2d_dimension: usize,
    rng: Rng,
}

impl View for ZeroTwoSequence {
    type V = ZeroTwoView;

    closed spec fn view(&self) -> ZeroTwoView {
        ZeroTwoView {
            spp: self.spp,
            pixel: self.current_pixel,
            index: self.current_pixel_sample_index,
            sizes_1d: self.sample_1d_array_sizes@,
            sizes_2d: self.sample_2d_array_sizes@,
            arrays_1d: self.sample_array_1d@.map_values(|v: Vec<u32>| v@),
            arrays_2d: self.sample_array_2d@.map_values(|v: Vec<Point2<u32>>| v@),
            offset_1d: self.array_1d_offset,
            offset_2d: self.array_2d_offset,
            samples_1d: self.samples_1d@.map_values(|v: Vec<u32>| v@),
            samples_2d: self.samples_2d@.map_values(|v: Vec<Point2<u32>>| v@),
            dim_1d: self.current_1d_dimension,
            dim_2d: self.current_2d_dimension,
            rng: self.rng,
        }
    }
}

impl ZeroTwoView {
    /// The shapes the sampler keeps: `spp` samples per sampled dimension,
    /// `size * spp` per requested array, and offsets and dimensions that
    /// never run past what there is.
    pub open spec fn wf(self) -> bool {
        &&& is_pow2(self.spp as int)
        &&& forall|i: int| 0 <= i < self.samples_1d.len() ==> #[trigger] self.samples_1d[i].len() == self.spp
        &&& forall|i: int| 0 <= i < self.samples_2d.len() ==> #[trigger] self.samples_2d[i].len() == self.spp
        &&& self.arrays_1d.len() == self.sizes_1d.len()
        &&& self.arrays_2d.len() == self.sizes_2d.len()
        &&& forall|k: int|
            0 <= k < self.arrays_1d.len() ==> #[trigger] self.arrays_1d[k].len() == self.sizes_1d[k]
                * self.spp
        &&& forall|k: int|
            0 <= k < self.arrays_2d.len() ==> #[trigger] self.arrays_2d[k].len() == self.sizes_2d[k]
                * self.spp
        &&& self.offset_1d <= self.arrays_1d.len()
        &&& self.offset_2d <= self.arrays_2d.len()
    }
}

/// `n` copies of `v`.
fn filled<T: Copy>(v: T, n: usize) -> (r: Vec<T>)
    ensures
        r@ == Seq::new(n as nat, |i: int| v),
{
    let mut r: Vec<T> = Vec::with_capacity(n);
    for i in 0..n
        invariant
            r@ == Seq::new(i as nat, |k: int| v),
    {
        r.push(v);
        proof {
            assert(r@ =~= Seq::new((i + 1) as nat, |k: int| v));
        }
    }
    r
}

impl ZeroTwoSequence {
    /// A sampler with `spp` rounded up to a power of two samples per pixel and
    /// `n_sampled_dimensions` 1D and 2D dimensions, all samples zero until the
    /// first pixel starts.
    pub fn new(spp: usize, n_sampled_dimensions: usize) -> (r: ZeroTwoSequence)
        requires
            spp <= usize::MAX / 2 + 1,
        ensures
            r@.wf(),
            is_next_pow2(spp as int, r@.spp as int),
            r@.pixel == (Point2 { x: 0i32, y: 0i32 }),
            r@.index == 0,
            r@.sizes_1d.len() == 0,
            r@.sizes_2d.len() == 0,
            r@.arrays_1d.len() == 0,
            r@.arrays_2d.len() == 0,
            r@.offset_1d == 0,
            r@.offset_2d == 0,
            r@.samples_1d == Seq::new(n_sampled_dimensions as nat, |i: int| Seq::new(r@.spp as nat, |k: int| 0u32)),
            r@.samples_2d == Seq::new(
                n_sampled_dimensions as nat,
                |i: int| Seq::new(r@.spp as nat, |k: int| Point2 { x: 0u32, y: 0u32 }),
            ),
            r@.dim_1d == 0,
            r@.dim_2d == 0,
            r@.rng.state() == crate::rng::PCG32_DEFAULT_STATE,
            r@.rng.inc() == crate::rng::PCG32_DEFAULT_STREAM,
    {
        let spp = next_power_of_two(spp);
        let mut samples1d: Vec<Vec<u32>> = Vec::with_capacity(n_sampled_dimensions);
        let mut samples2d: Vec<Vec<Point2<u32>>> = Vec::with_capacity(n_sampled_dimensions);
        let ghost zeros1 = Seq::new(spp as nat, |k: int| 0u32);
        let ghost zeros2 = Seq::new(spp as nat, |k: int| Point2 { x: 0u32, y: 0u32 });
        for i in 0..n_sampled_dimensions
            invariant
                zeros1 == Seq::new(spp as nat, |k: int| 0u32),
                zeros2 == Seq::new(spp as nat, |k: int| Point2 { x: 0u32, y: 0u32 }),
                samples1d@.len() == i,
                samples2d@.len() == i,
                forall|j: int| 0 <= j < i ==> #[trigger] samples1d@[j]@ == zeros1,
                forall|j: int| 0 <= j < i ==> #[trigger] samples2d@[j]@ == zeros2,
        {
            samples1d.push(filled(0u32, spp));
            samples2d.push(filled(Point2 { x: 0u32, y: 0u32 }, spp));
        }
        let r = ZeroTwoSequence {
            spp,
            current_pixel: Point2::new(0, 0),
            current_pixel_sample_index: 0,
            sample_1d_array_sizes: Vec::new(),
            sample_2d_array_sizes: Vec::new(),
            sample_array_1d: Vec::new(),
            sample_array_2d: Vec::new(),
            array_1d_offset: 0,
            array_2d_offset: 0,
            samples_1d: samples1d,
            samples_2d: samples2d,
            current_1d_dimension: 0,
            current_2d_dimension: 0,
            rng: Rng::new(),
        };
        proof {
            assert(r@.samples_1d =~= Seq::new(n_sampled_dimensions as nat, |i: int| zeros1));
            assert(r@.samples_2d =~= Seq::new(n_sampled_dimensions as nat, |i: int| zeros2));
        }
        r
    }
}

} // verus!

verus! {

impl ZeroTwoSequence {
    /// Moves on to the next sample of the pixel: the arrays and dimensions
    /// start again from the first; whether the pixel has that sample.
    pub fn start_next_sample(&mut self) -> (r: bool)
        requires
            old(self)@.wf(),
            old(self)@.index < usize::MAX,
        ensures
            final(self)@ == (ZeroTwoView {
                index: (old(self)@.index + 1) as usize,
                offset_1d: 0,
                offset_2d: 0,
                dim_1d: 0,
                dim_2d: 0,
                ..old(self)@
            }),
            final(self)@.wf(),
            r == (old(self)@.index + 1 < old(self)@.spp),
    {
        self.array_1d_offset = 0;
        self.array_2d_offset = 0;
        self.current_1d_dimension = 0;
        self.current_2d_dimension = 0;
        self.current_pixel_sample_index += 1;
        self.current_pixel_sample_index < self.spp
    }

    /// Asks for an array of `n` 1D samples at each pixel sample: room for
    /// `n * spp` samples, zero until the next pixel starts.
    pub fn request_1d_array(&mut self, n: usize)
        requires
            old(self)@.wf(),
            n * old(self)@.spp <= usize::MAX,
        ensures
            final(self)@ == (ZeroTwoView {
                sizes_1d: old(self)@.sizes_1d.push(n),
                arrays_1d: old(self)@.arrays_1d.push(Seq::new((n * old(self)@.spp) as nat, |k: int| 0u32)),
                ..old(self)@
            }),
            final(self)@.wf(),
    {
        let ghost prev = self.sample_array_1d@;
        self.sample_1d_array_sizes.push(n);
        let v = filled(0u32, n * self.spp);
        self.sample_array_1d.push(v);
        proof {
            assert(self.sample_array_1d@.map_values(|v: Vec<u32>| v@) =~= prev.map_values(
                |v: Vec<u32>| v@,
            ).push(Seq::new((n * self.spp) as nat, |k: int| 0u32)));
        }
    }

    /// Asks for an array of `n` 2D samples at each pixel sample: room for
    /// `n * spp` samples, zero until the next pixel starts.
    pub fn request_2d_array(&mut self, n: usize)
        requires
            old(self)@.wf(),
            n * old(self)@.spp <= usize::MAX,
        ensures
            final(self)@ == (ZeroTwoView {
                sizes_2d: old(self)@.sizes_2d.push(n),
                arrays_2d: old(self)@.arrays_2d.push(
                    Seq::new((n * old(self)@.spp) as nat, |k: int| Point2 { x: 0u32, y: 0u32 }),
                ),
                ..old(self)@
            }),
            final(self)@.wf(),
    {
        let ghost prev = self.sample_array_2d@;
        self.sample_2d_array_sizes.push(n);
        let v = filled(Point2 { x: 0u32, y: 0u32 }, n * self.spp);
        self.sample_array_2d.push(v);
        proof {
            assert(self.sample_array_2d@.map_values(|v: Vec<Point2<u32>>| v@) =~= prev.map_values(
                |v: Vec<Point2<u32>>| v@,
            ).push(Seq::new((n * self.spp) as nat, |k: int| Point2 { x: 0u32, y: 0u32 })));
        }
    }

    /// The next 1D sample: that of the next sampled dimension at the current
    /// pixel sample, or a fresh draw of the generator once the sampled
    /// dimensions are used up.
    pub fn get_1d(&mut self) -> (r: u32)
        requires
            old(self)@.wf(),
            old(self)@.dim_1d < old(self)@.samples_1d.len() ==> old(self)@.index < old(self)@.spp,
        ensures
            final(self)@.wf(),
            if old(self)@.dim_1d < old(self)@.samples_1d.len() {
                &&& r == old(self)@.samples_1d[old(self)@.dim_1d as int][old(self)@.index as int]
                &&& final(self)@ == (ZeroTwoView { dim_1d: (old(self)@.dim_1d + 1) as usize, ..old(self)@ })
            } else {
                &&& r == pcg_output(old(self)@.rng.state())
                &&& final(self)@.rng.state() == pcg_step(old(self)@.rng.state(), old(self)@.rng.inc())
                &&& final(self)@ == (ZeroTwoView { rng: final(self)@.rng, ..old(self)@ })
                &&& final(self)@.rng.inc() == old(self)@.rng.inc()
            },
    {
        if self.current_1d_dimension < self.samples_1d.len() {
            proof {
                let dim = self.current_1d_dimension as int;
                assert(self@.samples_1d[dim] == self.samples_1d@[dim]@);
            }
            let res = self.samples_1d[self.current_1d_dimension][self.current_pixel_sample_index];
            self.current_1d_dimension += 1;
            res
        } else {
            self.rng.uniform_u32()
        }
    }

    /// The next 2D sample: that of the next sampled dimension at the current
    /// pixel sample, or two fresh draws of the generator once the sampled
    /// dimensions are used up (the first draw becoming `y`, the second `x`).
    pub fn get_2d(&mut self) -> (r: Point2<u32>)
        requires
            old(self)@.wf(),
            old(self)@.dim_2d < old(self)@.samples_2d.len() ==> old(self)@.index < old(self)@.spp,
        ensures
            final(self)@.wf(),
            if old(self)@.dim_2d < old(self)@.samples_2d.len() {
                &&& r == old(self)@.samples_2d[old(self)@.dim_2d as int][old(self)@.index as int]
                &&& final(self)@ == (ZeroTwoView { dim_2d: (old(self)@.dim_2d + 1) as usize, ..old(self)@ })
            } else {
                &&& r.y == pcg_output(old(self)@.rng.state())
                &&& r.x == pcg_output(pcg_step(old(self)@.rng.state(), old(self)@.rng.inc()))
                &&& final(self)@.rng.state() == pcg_step(
                    pcg_step(old(self)@.rng.state(), old(self)@.rng.inc()),
                    old(self)@.rng.inc(),
                )
                &&& final(self)@ == (ZeroTwoView { rng: final(self)@.rng, ..old(self)@ })
                &&& final(self)@.rng.inc() == old(self)@.rng.inc()
            },
    {
        if self.current_2d_dimension < self.samples_2d.len() {
            proof {
                let dim = self.current_2d_dimension as int;
                assert(self@.samples_2d[dim] == self.samples_2d@[dim]@);
            }
            let res = self.samples_2d[self.current_2d_dimension][self.current_pixel_sample_index];
            self.current_2d_dimension += 1;
            res
        } else {
            let x = self.rng.uniform_u32();
            let y = self.rng.uniform_u32();
            Point2::new(y, x)
        }
    }

    /// The number of samples to ask for in place of `count`: the least power
    /// of two at or above it.
    pub fn round_count(&self, count: usize) -> (r: usize)
        requires
            count <= usize::MAX / 2 + 1,
        ensures
            is_next_pow2(count as int, r as int),
    {
        next_power_of_two(count)
    }

    /// Restarts the generator on the stream selected by `seed`.
    pub fn reseed(&mut self, seed: u64)
        ensures
            final(self)@ == (ZeroTwoView { rng: final(self)@.rng, ..old(self)@ }),
            final(self)@.rng.inc() == (seed << 1u64) | 1u64,
            final(self)@.rng.state() == pcg_step(
                ((pcg_step(0, final(self)@.rng.inc()) as int + crate::rng::PCG32_DEFAULT_STATE as int)
                    % 0x1_0000_0000_0000_0000int) as u64,
                final(self)@.rng.inc(),
            ),
    {
        self.rng.set_sequence(seed);
    }

    /// The number of samples per pixel.
    pub fn spp(&self) -> (r: usize)
        ensures
            r == self@.spp,
    {
        self.spp
    }

    /// The number of the current sample of the pixel.
    pub fn current_sample_number(&self) -> (r: usize)
        ensures
            r == self@.index,
    {
        self.current_pixel_sample_index
    }
}

} // verus!

verus! {

/// `after` is `before` with its first `n_per * n_pix` samples replaced by
/// stratified scrambled van der Corput points, for some scramble.
pub open spec fn van_der_corput_stratified(before: Seq<u32>, after: Seq<u32>, n_per: int, n_pix: int) -> bool {
    exists|s: u32| #[trigger] stratified(before, after, n_per, n_pix, van_der_corput_point(s))
}

/// `after` is `before` with its first `n_per * n_pix` samples replaced by
/// stratified scrambled Sobol points, for some pair of scrambles.
pub open spec fn sobol_stratified(
    before: Seq<Point2<u32>>,
    after: Seq<Point2<u32>>,
    n_per: int,
    n_pix: int,
) -> bool {
    exists|sx: u32, sy: u32| #[trigger] stratified(before, after, n_per, n_pix, sobol_point(sx, sy))
}

/// The samples `van_der_corput(n_per, n_pix, ..)` lays out over `s` from a
/// generator in `state`.
pub open spec fn van_der_corput_layout(s: Seq<u32>, n_per: u32, n_pix: u32, state: u64, inc: u64) -> Seq<u32> {
    strata_shuffled(
        overlay(s, n_per * n_pix, van_der_corput_point(pcg_output(state))),
        n_per,
        n_pix,
        pcg_step(state, inc),
        inc,
    )
}

/// The generator's state after `van_der_corput(n_per, n_pix, ..)` from `state`.
pub open spec fn van_der_corput_rng(n_per: u32, n_pix: u32, state: u64, inc: u64) -> u64 {
    strata_rng(n_per, n_pix, pcg_step(state, inc), inc)
}

/// The samples `sobol_2d(n_per, n_pix, ..)` lays out over `s` from a
/// generator in `state`.
pub open spec fn sobol_layout(s: Seq<Point2<u32>>, n_per: u32, n_pix: u32, state: u64, inc: u64) -> Seq<Point2<u32>> {
    strata_shuffled(
        overlay(s, n_per * n_pix, sobol_point(pcg_output(state), pcg_output(pcg_step(state, inc)))),
        n_per,
        n_pix,
        pcg_step(pcg_step(state, inc), inc),
        inc,
    )
}

/// The generator's state after `sobol_2d(n_per, n_pix, ..)` from `state`.
pub open spec fn sobol_rng(n_per: u32, n_pix: u32, state: u64, inc: u64) -> u64 {
    strata_rng(n_per, n_pix, pcg_step(pcg_step(state, inc), inc), inc)
}

/// The generator's state after `van_der_corput` has laid out the first `i`
/// of a run of sample sets with `pers[k]` samples per pixel sample.
pub open spec fn van_der_corput_chain(pers: Seq<u32>, n_pix: u32, state: u64, inc: u64, i: nat) -> u64
    decreases i,
{
    if i == 0 {
        state
    } else {
        van_der_corput_rng(pers[i - 1], n_pix, van_der_corput_chain(pers, n_pix, state, inc, (i - 1) as nat), inc)
    }
}

/// The generator's state after `sobol_2d` has laid out the first `i` of a
/// run of sample sets with `pers[k]` samples per pixel sample.
pub open spec fn sobol_chain(pers: Seq<u32>, n_pix: u32, state: u64, inc: u64, i: nat) -> u64
    decreases i,
{
    if i == 0 {
        state
    } else {
        sobol_rng(pers[i - 1], n_pix, sobol_chain(pers, n_pix, state, inc, (i - 1) as nat), inc)
    }
}

/// `n` sample sets of one sample per pixel sample.
pub open spec fn unit_counts(n: nat) -> Seq<u32> {
    Seq::new(n, |i: int| 1u32)
}

/// The array sizes, as the 32-bit counts `start_pixel` uses.
pub open spec fn size_counts(sizes: Seq<usize>) -> Seq<u32> {
    Seq::new(sizes.len(), |k: int| sizes[k] as u32)
}

/// The generator's state once `start_pixel` has laid out the 1D dimensions.
pub open spec fn state_after_1d(v: ZeroTwoView) -> u64 {
    van_der_corput_chain(unit_counts(v.samples_1d.len()), v.spp as u32, v.rng.state(), v.rng.inc(), v.samples_1d.len())
}

/// The generator's state once `start_pixel` has laid out the 2D dimensions.
pub open spec fn state_after_2d(v: ZeroTwoView) -> u64 {
    sobol_chain(unit_counts(v.samples_2d.len()), v.spp as u32, state_after_1d(v), v.rng.inc(), v.samples_2d.len())
}

/// The generator's state once `start_pixel` has laid out the 1D arrays.
pub open spec fn state_after_arrays_1d(v: ZeroTwoView) -> u64 {
    van_der_corput_chain(size_counts(v.sizes_1d), v.spp as u32, state_after_2d(v), v.rng.inc(), v.sizes_1d.len())
}

/// The generator's state once `start_pixel` has laid out everything.
pub open spec fn state_after_arrays_2d(v: ZeroTwoView) -> u64 {
    sobol_chain(size_counts(v.sizes_2d), v.spp as u32, state_after_arrays_1d(v), v.rng.inc(), v.sizes_2d.len())
}

/// A shuffle only advances the generator: its state after `i` steps is some
/// number of generator steps after `state`.
proof fn lemma_shuffle_rng_steps(count: u32, state: u64, inc: u64, i: nat) -> (k: nat)
    ensures
        shuffle_rng(count, state, inc, i) == pcg_steps(state, inc, k),
    decreases i,
{
    if i == 0 {
        0
    } else {
        let k0 = lemma_shuffle_rng_steps(count, state, inc, (i - 1) as nat);
        let st = shuffle_rng(count, state, inc, (i - 1) as nat);
        let d = bounded_draws(st, inc, (count - (i - 1)) as u32);
        lemma_pcg_steps_add(state, inc, k0, d);
        k0 + d
    }
}

/// Shuffling within strata only advances the generator.
proof fn lemma_strata_inner_rng_steps(n_per: u32, state: u64, inc: u64, i: nat) -> (k: nat)
    ensures
        strata_inner_rng(n_per, state, inc, i) == pcg_steps(state, inc, k),
    decreases i,
{
    if i == 0 {
        0
    } else {
        let k0 = lemma_strata_inner_rng_steps(n_per, state, inc, (i - 1) as nat);
        let st = strata_inner_rng(n_per, state, inc, (i - 1) as nat);
        let d = lemma_shuffle_rng_steps(n_per, st, inc, n_per as nat);
        lemma_pcg_steps_add(state, inc, k0, d);
        k0 + d
    }
}

/// Shuffling the strata only advances the generator.
proof fn lemma_strata_rng_steps(n_per: u32, n_pix: u32, state: u64, inc: u64) -> (k: nat)
    ensures
        strata_rng(n_per, n_pix, state, inc) == pcg_steps(state, inc, k),
{
    let k0 = lemma_strata_inner_rng_steps(n_per, state, inc, n_pix as nat);
    let st = strata_inner_rng(n_per, state, inc, n_pix as nat);
    let d = lemma_shuffle_rng_steps(n_pix, st, inc, n_pix as nat);
    lemma_pcg_steps_add(state, inc, k0, d);
    k0 + d
}

/// `van_der_corput` takes at least one draw, its scramble, from the
/// generator, and otherwise only advances it.
proof fn lemma_van_der_corput_rng_steps(n_per: u32, n_pix: u32, state: u64, inc: u64) -> (k: nat)
    ensures
        k >= 1,
        van_der_corput_rng(n_per, n_pix, state, inc) == pcg_steps(state, inc, k),
{
    assert(pcg_steps(state, inc, 0) == state);
    assert(pcg_steps(state, inc, 1) == pcg_step(state, inc));
    let d = lemma_strata_rng_steps(n_per, n_pix, pcg_step(state, inc), inc);
    lemma_pcg_steps_add(state, inc, 1, d);
    1 + d
}

/// `sobol_2d` takes at least two draws, its scrambles, from the generator,
/// and otherwise only advances it.
proof fn lemma_sobol_rng_steps(n_per: u32, n_pix: u32, state: u64, inc: u64) -> (k: nat)
    ensures
        k >= 2,
        sobol_rng(n_per, n_pix, state, inc) == pcg_steps(state, inc, k),
{
    assert(pcg_steps(state, inc, 0) == state);
    assert(pcg_steps(state, inc, 1) == pcg_step(state, inc));
    assert(pcg_steps(state, inc, 2) == pcg_step(pcg_step(state, inc), inc));
    let d = lemma_strata_rng_steps(n_per, n_pix, pcg_step(pcg_step(state, inc), inc), inc);
    lemma_pcg_steps_add(state, inc, 2, d);
    2 + d
}

proof fn lemma_van_der_corput_chain_steps(pers: Seq<u32>, n_pix: u32, state: u64, inc: u64, i: nat, j: nat) -> (k: nat)
    requires
        i <= j <= pers.len(),
    ensures
        k >= j - i,
        pcg_steps(van_der_corput_chain(pers, n_pix, state, inc, i), inc, k) == van_der_corput_chain(pers, n_pix, state, inc, j),
    decreases j,
{
    if j == i {
        0
    } else {
        let k0 = lemma_van_der_corput_chain_steps(pers, n_pix, state, inc, i, (j - 1) as nat);
        let prev = van_der_corput_chain(pers, n_pix, state, inc, (j - 1) as nat);
        let d = lemma_van_der_corput_rng_steps(pers[j - 1], n_pix, prev, inc);
        lemma_pcg_steps_add(van_der_corput_chain(pers, n_pix, state, inc, i), inc, k0, d);
        k0 + d
    }
}

proof fn lemma_sobol_chain_steps(pers: Seq<u32>, n_pix: u32, state: u64, inc: u64, i: nat, j: nat) -> (k: nat)
    requires
        i <= j <= pers.len(),
    ensures
        k >= 2 * (j - i),
        pcg_steps(sobol_chain(pers, n_pix, state, inc, i), inc, k) == sobol_chain(pers, n_pix, state, inc, j),
    decreases j,
{
    if j == i {
        0
    } else {
        let k0 = lemma_sobol_chain_steps(pers, n_pix, state, inc, i, (j - 1) as nat);
        let prev = sobol_chain(pers, n_pix, state, inc, (j - 1) as nat);
        let d = lemma_sobol_rng_steps(pers[j - 1], n_pix, prev, inc);
        lemma_pcg_steps_add(sobol_chain(pers, n_pix, state, inc, i), inc, k0, d);
        k0 + d
    }
}

/// Each sample set that `start_pixel` lays out with `van_der_corput` draws
/// its own scramble: the generator state from which set `j` is laid out is
/// at least `j - i` generator steps past the one for set `i`, so later sets
/// never reuse an earlier set's state without the generator moving on.
pub proof fn law_van_der_corput_sets_draw_fresh(pers: Seq<u32>, n_pix: u32, state: u64, inc: u64, i: nat, j: nat)
    requires
        i <= j <= pers.len(),
    ensures
        exists|k: nat|
            k >= j - i && #[trigger] pcg_steps(van_der_corput_chain(pers, n_pix, state, inc, i), inc, k)
                == van_der_corput_chain(pers, n_pix, state, inc, j),
{
    let k = lemma_van_der_corput_chain_steps(pers, n_pix, state, inc, i, j);
    assert(pcg_steps(van_der_corput_chain(pers, n_pix, state, inc, i), inc, k) == van_der_corput_chain(pers, n_pix, state, inc, j));
}

/// Each sample set that `start_pixel` lays out with `sobol_2d` draws its own
/// two scrambles: the generator state from which set `j` is laid out is at
/// least `2 * (j - i)` generator steps past the one for set `i`.
pub proof fn law_sobol_sets_draw_fresh(pers: Seq<u32>, n_pix: u32, state: u64, inc: u64, i: nat, j: nat)
    requires
        i <= j <= pers.len(),
    ensures
        exists|k: nat|
            k >= 2 * (j - i) && #[trigger] pcg_steps(sobol_chain(pers, n_pix, state, inc, i), inc, k) == sobol_chain(
                pers,
                n_pix,
                state,
                inc,
                j,
            ),
{
    let k = lemma_sobol_chain_steps(pers, n_pix, state, inc, i, j);
    assert(pcg_steps(sobol_chain(pers, n_pix, state, inc, i), inc, k) == sobol_chain(pers, n_pix, state, inc, j));
}

proof fn lemma_truncate_le(x: usize)
    ensures
        (x as u32) as int <= x,
{
    assert((x as u32) as usize <= x) by (bit_vector);
}

impl ZeroTwoSequence {
    /// Starts pixel `p`: lays out fresh stratified points for every sampled
    /// dimension (one point per pixel sample) and every requested array
    /// (`size` points per pixel sample), each with its own scramble drawn
    /// from the generator, and goes back to the pixel's first sample. The
    /// sample counts are taken as 32-bit numbers.
    pub fn start_pixel(&mut self, p: Point2<i32>)
        requires
            old(self)@.wf(),
            forall|k: int|
                0 <= k < old(self)@.sizes_1d.len() ==> (#[trigger] old(self)@.sizes_1d[k] as u32) as int
                    * (old(self)@.spp as u32) as int <= u32::MAX,
            forall|k: int|
                0 <= k < old(self)@.sizes_2d.len() ==> (#[trigger] old(self)@.sizes_2d[k] as u32) as int
                    * (old(self)@.spp as u32) as int <= u32::MAX,
        ensures
            final(self)@.wf(),
            final(self)@.spp == old(self)@.spp,
            final(self)@.pixel == p,
            final(self)@.index == 0,
            final(self)@.offset_1d == 0,
            final(self)@.offset_2d == 0,
            final(self)@.sizes_1d == old(self)@.sizes_1d,
            final(self)@.sizes_2d == old(self)@.sizes_2d,
            final(self)@.dim_1d == old(self)@.dim_1d,
            final(self)@.dim_2d == old(self)@.dim_2d,
            final(self)@.rng.inc() == old(self)@.rng.inc(),
            final(self)@.samples_1d.len() == old(self)@.samples_1d.len(),
            final(self)@.samples_2d.len() == old(self)@.samples_2d.len(),
            final(self)@.arrays_1d.len() == old(self)@.arrays_1d.len(),
            final(self)@.arrays_2d.len() == old(self)@.arrays_2d.len(),
            forall|i: int|
                0 <= i < old(self)@.samples_1d.len() ==> #[trigger] van_der_corput_stratified(
                    old(self)@.samples_1d[i],
                    final(self)@.samples_1d[i],
                    1,
                    (old(self)@.spp as u32) as int,
                ),
            forall|i: int|
                0 <= i < old(self)@.samples_2d.len() ==> #[trigger] sobol_stratified(
                    old(self)@.samples_2d[i],
                    final(self)@.samples_2d[i],
                    1,
                    (old(self)@.spp as u32) as int,
                ),
            forall|k: int|
                0 <= k < old(self)@.arrays_1d.len() ==> #[trigger] van_der_corput_stratified(
                    old(self)@.arrays_1d[k],
                    final(self)@.arrays_1d[k],
                    (old(self)@.sizes_1d[k] as u32) as int,
                    (old(self)@.spp as u32) as int,
                ),
            forall|k: int|
                0 <= k < old(self)@.arrays_2d.len() ==> #[trigger] sobol_stratified(
                    old(self)@.arrays_2d[k],
                    final(self)@.arrays_2d[k],
                    (old(self)@.sizes_2d[k] as u32) as int,
                    (old(self)@.spp as u32) as int,
                ),
            final(self)@.rng.state() == state_after_arrays_2d(old(self)@),
            forall|i: int|
                0 <= i < old(self)@.samples_1d.len() ==> #[trigger] final(self)@.samples_1d[i] == van_der_corput_layout(
                    old(self)@.samples_1d[i],
                    1,
                    old(self)@.spp as u32,
                    van_der_corput_chain(
                        unit_counts(old(self)@.samples_1d.len()),
                        old(self)@.spp as u32,
                        old(self)@.rng.state(),
                        old(self)@.rng.inc(),
                        i as nat,
                    ),
                    old(self)@.rng.inc(),
                ),
            forall|i: int|
                0 <= i < old(self)@.samples_2d.len() ==> #[trigger] final(self)@.samples_2d[i] == sobol_layout(
                    old(self)@.samples_2d[i],
                    1,
                    old(self)@.spp as u32,
                    sobol_chain(
                        unit_counts(old(self)@.samples_2d.len()),
                        old(self)@.spp as u32,
                        state_after_1d(old(self)@),
                        old(self)@.rng.inc(),
                        i as nat,
                    ),
                    old(self)@.rng.inc(),
                ),
            forall|k: int|
                0 <= k < old(self)@.arrays_1d.len() ==> #[trigger] final(self)@.arrays_1d[k] == van_der_corput_layout(
                    old(self)@.arrays_1d[k],
                    old(self)@.sizes_1d[k] as u32,
                    old(self)@.spp as u32,
                    van_der_corput_chain(
                        size_counts(old(self)@.sizes_1d),
                        old(self)@.spp as u32,
                        state_after_2d(old(self)@),
                        old(self)@.rng.inc(),
                        k as nat,
                    ),
                    old(self)@.rng.inc(),
                ),
            forall|k: int|
                0 <= k < old(self)@.arrays_2d.len() ==> #[trigger] final(self)@.arrays_2d[k] == sobol_layout(
                    old(self)@.arrays_2d[k],
                    old(self)@.sizes_2d[k] as u32,
                    old(self)@.spp as u32,
                    sobol_chain(
                        size_counts(old(self)@.sizes_2d),
                        old(self)@.spp as u32,
                        state_after_arrays_1d(old(self)@),
                        old(self)@.rng.inc(),
                        k as nat,
                    ),
                    old(self)@.rng.inc(),
                ),
    {
        let ghost start = self@;
        let n_pix = self.spp as u32;
        proof {
            lemma_truncate_le(self.spp);
        }
        let mut i: usize = 0;
        while i < self.samples_1d.len()
            invariant
                start.wf(),
                n_pix == start.spp as u32,
                n_pix <= start.spp,
                self@ == (ZeroTwoView { samples_1d: self@.samples_1d, rng: self@.rng, ..start }),
                self@.rng.inc() == start.rng.inc(),
                self@.samples_1d.len() == start.samples_1d.len(),
                0 <= i <= self@.samples_1d.len(),
                forall|j: int| 0 <= j < self@.samples_1d.len() ==> #[trigger] self@.samples_1d[j].len() == start.spp,
                forall|j: int|
                    0 <= j < i ==> #[trigger] van_der_corput_stratified(
                        start.samples_1d[j],
                        self@.samples_1d[j],
                        1,
                        n_pix as int,
                    ),
                forall|j: int| i <= j < self@.samples_1d.len() ==> #[trigger] self@.samples_1d[j] == start.samples_1d[j],
                self@.rng.state() == van_der_corput_chain(
                    unit_counts(start.samples_1d.len()),
                    n_pix,
                    start.rng.state(),
                    start.rng.inc(),
                    i as nat,
                ),
                forall|j: int|
                    0 <= j < i ==> #[trigger] self@.samples_1d[j] == van_der_corput_layout(
                        start.samples_1d[j],
                        1,
                        n_pix,
                        van_der_corput_chain(unit_counts(start.samples_1d.len()), n_pix, start.rng.state(), start.rng.inc(), j as nat),
                        start.rng.inc(),
                    ),
            decreases self@.samples_1d.len() - i,
        {
            let ghost st = self.rng.state();
            let ghost before = self@.samples_1d[i as int];
            proof {
                assert(self@.samples_1d[i as int] == self.samples_1d@[i as int]@);
            }
            let ghost prev_view = self@.samples_1d;
            let ghost prev_vec = self.samples_1d@;
            van_der_corput(1, n_pix, self.samples_1d[i].as_mut_slice(), &mut self.rng);
            proof {
                assert forall|j: int| 0 <= j < prev_view.len() && j != i implies #[trigger] self@.samples_1d[j]
                    == prev_view[j] by {
                    assert(self.samples_1d@[j] == prev_vec[j]);
                }
            }
            proof {
                let after = self@.samples_1d[i as int];
                assert(stratified(before, after, 1, n_pix as int, van_der_corput_point(pcg_output(st))));
                assert(unit_counts(start.samples_1d.len())[i as int] == 1u32);
            }
            i += 1;
        }
        let ghost after_1d = self@;
        let mut i: usize = 0;
        while i < self.samples_2d.len()
            invariant
                start.wf(),
                n_pix == start.spp as u32,
                n_pix <= start.spp,
                self@ == (ZeroTwoView { samples_2d: self@.samples_2d, rng: self@.rng, ..after_1d }),
                self@.rng.inc() == start.rng.inc(),
                self@.samples_2d.len() == start.samples_2d.len(),
                0 <= i <= self@.samples_2d.len(),
                forall|j: int| 0 <= j < self@.samples_2d.len() ==> #[trigger] self@.samples_2d[j].len() == start.spp,
                forall|j: int|
                    0 <= j < i ==> #[trigger] sobol_stratified(
                        start.samples_2d[j],
                        self@.samples_2d[j],
                        1,
                        n_pix as int,
                    ),
                forall|j: int| i <= j < self@.samples_2d.len() ==> #[trigger] self@.samples_2d[j] == start.samples_2d[j],
                self@.rng.state() == sobol_chain(
                    unit_counts(start.samples_2d.len()),
                    n_pix,
                    state_after_1d(start),
                    start.rng.inc(),
                    i as nat,
                ),
                forall|j: int|
                    0 <= j < i ==> #[trigger] self@.samples_2d[j] == sobol_layout(
                        start.samples_2d[j],
                        1,
                        n_pix,
                        sobol_chain(unit_counts(start.samples_2d.len()), n_pix, state_after_1d(start), start.rng.inc(), j as nat),
                        start.rng.inc(),
                    ),
            decreases self@.samples_2d.len() - i,
        {
            let ghost st = self.rng.state();
            let ghost inc = self.rng.inc();
            let ghost before = self@.samples_2d[i as int];
            proof {
                assert(self@.samples_2d[i as int] == self.samples_2d@[i as int]@);
            }
            let ghost prev_view = self@.samples_2d;
            let ghost prev_vec = self.samples_2d@;
            sobol_2d(1, n_pix, self.samples_2d[i].as_mut_slice(), &mut self.rng);
            proof {
                assert forall|j: int| 0 <= j < prev_view.len() && j != i implies #[trigger] self@.samples_2d[j]
                    == prev_view[j] by {
                    assert(self.samples_2d@[j] == prev_vec[j]);
                }
            }
            proof {
                let after = self@.samples_2d[i as int];
                assert(stratified(before, after, 1, n_pix as int, sobol_point(pcg_output(st), pcg_output(pcg_step(st, inc)))));
                assert(unit_counts(start.samples_2d.len())[i as int] == 1u32);
            }
            i += 1;
        }
        let ghost after_2d = self@;
        let mut i: usize = 0;
        while i < self.sample_1d_array_sizes.len()
            invariant
                start.wf(),
                n_pix == start.spp as u32,
                n_pix <= start.spp,
                forall|k: int|
                    0 <= k < start.sizes_1d.len() ==> (#[trigger] start.sizes_1d[k] as u32) as int
                        * n_pix as int <= u32::MAX,
                self@ == (ZeroTwoView { arrays_1d: self@.arrays_1d, rng: self@.rng, ..after_2d }),
                after_2d.sizes_1d == start.sizes_1d,
                self@.rng.inc() == start.rng.inc(),
                self@.arrays_1d.len() == start.arrays_1d.len(),
                0 <= i <= self@.arrays_1d.len(),
                forall|k: int|
                    0 <= k < self@.arrays_1d.len() ==> #[trigger] self@.arrays_1d[k].len() == start.sizes_1d[k]
                        * start.spp,
                forall|k: int|
                    0 <= k < i ==> #[trigger] van_der_corput_stratified(
                        start.arrays_1d[k],
                        self@.arrays_1d[k],
                        (start.sizes_1d[k] as u32) as int,
                        n_pix as int,
                    ),
                forall|k: int| i <= k < self@.arrays_1d.len() ==> #[trigger] self@.arrays_1d[k] == start.arrays_1d[k],
                self@.rng.state() == van_der_corput_chain(
                    size_counts(start.sizes_1d),
                    n_pix,
                    state_after_2d(start),
                    start.rng.inc(),
                    i as nat,
                ),
                forall|k: int|
                    0 <= k < i ==> #[trigger] self@.arrays_1d[k] == van_der_corput_layout(
                        start.arrays_1d[k],
                        start.sizes_1d[k] as u32,
                        n_pix,
                        van_der_corput_chain(size_counts(start.sizes_1d), n_pix, state_after_2d(start), start.rng.inc(), k as nat),
                        start.rng.inc(),
                    ),
            decreases self@.arrays_1d.len() - i,
        {
            let ghost st = self.rng.state();
            let ghost before = self@.arrays_1d[i as int];
            let size = self.sample_1d_array_sizes[i];
            proof {
                assert(self@.arrays_1d[i as int] == self.sample_array_1d@[i as int]@);
                assert(start.sizes_1d[i as int] == size);
                lemma_truncate_le(size);
                let a = (size as u32) as int;
                assert(a * n_pix <= size * start.spp) by (nonlinear_arith)
                    requires
                        0 <= a <= size,
                        0 <= n_pix <= start.spp,
                ;
            }
            let ghost prev_view = self@.arrays_1d;
            let ghost prev_vec = self.sample_array_1d@;
            van_der_corput(size as u32, n_pix, self.sample_array_1d[i].as_mut_slice(), &mut self.rng);
            proof {
                assert forall|j: int| 0 <= j < prev_view.len() && j != i implies #[trigger] self@.arrays_1d[j]
                    == prev_view[j] by {
                    assert(self.sample_array_1d@[j] == prev_vec[j]);
                }
            }
            proof {
                let after = self@.arrays_1d[i as int];
                assert(stratified(before, after, (size as u32) as int, n_pix as int, van_der_corput_point(pcg_output(st))));
                assert(size_counts(start.sizes_1d)[i as int] == size as u32);
            }
            i += 1;
        }
        let ghost after_a1 = self@;
        let mut i: usize = 0;
        while i < self.sample_2d_array_sizes.len()
            invariant
                start.wf(),
                n_pix == start.spp as u32,
                n_pix <= start.spp,
                forall|k: int|
                    0 <= k < start.sizes_2d.len() ==> (#[trigger] start.sizes_2d[k] as u32) as int
                        * n_pix as int <= u32::MAX,
                self@ == (ZeroTwoView { arrays_2d: self@.arrays_2d, rng: self@.rng, ..after_a1 }),
                after_a1.sizes_2d == start.sizes_2d,
                self@.rng.inc() == start.rng.inc(),
                self@.arrays_2d.len() == start.arrays_2d.len(),
                0 <= i <= self@.arrays_2d.len(),
                forall|k: int|
                    0 <= k < self@.arrays_2d.len() ==> #[trigger] self@.arrays_2d[k].len() == start.sizes_2d[k]
                        * start.spp,
                forall|k: int|
                    0 <= k < i ==> #[trigger] sobol_stratified(
                        start.arrays_2d[k],
                        self@.arrays_2d[k],
                        (start.sizes_2d[k] as u32) as int,
                        n_pix as int,
                    ),
                forall|k: int| i <= k < self@.arrays_2d.len() ==> #[trigger] self@.arrays_2d[k] == start.arrays_2d[k],
                self@.rng.state() == sobol_chain(
                    size_counts(start.sizes_2d),
                    n_pix,
                    state_after_arrays_1d(start),
                    start.rng.inc(),
                    i as nat,
                ),
                forall|k: int|
                    0 <= k < i ==> #[trigger] self@.arrays_2d[k] == sobol_layout(
                        start.arrays_2d[k],
                        start.sizes_2d[k] as u32,
                        n_pix,
                        sobol_chain(size_counts(start.sizes_2d), n_pix, state_after_arrays_1d(start), start.rng.inc(), k as nat),
                        start.rng.inc(),
                    ),
            decreases self@.arrays_2d.len() - i,
        {
            let ghost st = self.rng.state();
            let ghost inc = self.rng.inc();
            let ghost before = self@.arrays_2d[i as int];
            let size = self.sample_2d_array_sizes[i];
            proof {
                assert(self@.arrays_2d[i as int] == self.sample_array_2d@[i as int]@);
                assert(start.sizes_2d[i as int] == size);
                lemma_truncate_le(size);
                let a = (size as u32) as int;
                assert(a * n_pix <= size * start.spp) by (nonlinear_arith)
                    requires
                        0 <= a <= size,
                        0 <= n_pix <= start.spp,
                ;
            }
            let ghost prev_view = self@.arrays_2d;
            let ghost prev_vec = self.sample_array_2d@;
            sobol_2d(size as u32, n_pix, self.sample_array_2d[i].as_mut_slice(), &mut self.rng);
            proof {
                assert forall|j: int| 0 <= j < prev_view.len() && j != i implies #[trigger] self@.arrays_2d[j]
                    == prev_view[j] by {
                    assert(self.sample_array_2d@[j] == prev_vec[j]);
                }
            }
            proof {
                let after = self@.arrays_2d[i as int];
                assert(stratified(before, after, (size as u32) as int, n_pix as int, sobol_point(pcg_output(st), pcg_output(pcg_step(st, inc)))));
                assert(size_counts(start.sizes_2d)[i as int] == size as u32);
            }
            i += 1;
        }
        self.current_pixel = p;
        self.current_pixel_sample_index = 0;
        self.array_1d_offset = 0;
        self.array_2d_offset = 0;
    }
}

} // verus!

verus! {

impl ZeroTwoSequence {
    /// The next requested array of 1D samples, which must have been requested
    /// with `n` samples, from the current pixel sample's `n` samples to the
    /// end; `None` once every requested array has been handed out.
    pub fn get_1d_array(&mut self, n: usize) -> (r: Option<&[u32]>)
        requires
            old(self)@.wf(),
            old(self)@.offset_1d < old(self)@.arrays_1d.len() ==> old(self)@.sizes_1d[old(
                self,
            )@.offset_1d as int] == n && old(self)@.index < old(self)@.spp,
        ensures
            final(self)@.wf(),
            old(self)@.offset_1d == old(self)@.arrays_1d.len() ==> r is None && final(self)@ == old(
                self,
            )@,
            old(self)@.offset_1d < old(self)@.arrays_1d.len() ==> {
                let a = old(self)@.arrays_1d[old(self)@.offset_1d as int];
                &&& r matches Some(s) && s@ == a.subrange(old(self)@.index * n, a.len() as int)
                &&& final(self)@ == (ZeroTwoView {
                    offset_1d: (old(self)@.offset_1d + 1) as usize,
                    ..old(self)@
                })
            },
    {
        if self.array_1d_offset == self.sample_array_1d.len() {
            return None;
        }
        let off = self.array_1d_offset;
        let arr = &self.sample_array_1d[off];
        let len = arr.len();
        proof {
            assert(self@.arrays_1d[off as int] == self.sample_array_1d@[off as int]@);
            let idx = self.current_pixel_sample_index;
            assert(idx * n <= n * self.spp) by (nonlinear_arith)
                requires
                    idx < self.spp,
            ;
        }
        let start = self.current_pixel_sample_index * n;
        let res = vstd::slice::slice_subrange(arr.as_slice(), start, len);
        self.array_1d_offset += 1;
        Some(res)
    }

    /// The next requested array of 2D samples, which must have been requested
    /// with `n` samples, from the current pixel sample's `n` samples to the
    /// end; `None` once every requested array has been handed out.
    pub fn get_2d_array(&mut self, n: usize) -> (r: Option<&[Point2<u32>]>)
        requires
            old(self)@.wf(),
            old(self)@.offset_2d < old(self)@.arrays_2d.len() ==> old(self)@.sizes_2d[old(
                self,
            )@.offset_2d as int] == n && old(self)@.index < old(self)@.spp,
        ensures
            final(self)@.wf(),
            old(self)@.offset_2d == old(self)@.arrays_2d.len() ==> r is None && final(self)@ == old(
                self,
            )@,
            old(self)@.offset_2d < old(self)@.arrays_2d.len() ==> {
                let a = old(self)@.arrays_2d[old(self)@.offset_2d as int];
                &&& r matches Some(s) && s@ == a.subrange(old(self)@.index * n, a.len() as int)
                &&& final(self)@ == (ZeroTwoView {
                    offset_2d: (old(self)@.offset_2d + 1) as usize,
                    ..old(self)@
                })
            },
    {
        if self.array_2d_offset == self.sample_array_2d.len() {
            return None;
        }
        let off = self.array_2d_offset;
        let arr = &self.sample_array_2d[off];
        let len = arr.len();
        proof {
            assert(self@.arrays_2d[off as int] == self.sample_array_2d@[off as int]@);
            let idx = self.current_pixel_sample_index;
            assert(idx * n <= n * self.spp) by (nonlinear_arith)
                requires
                    idx < self.spp,
            ;
        }
        let start = self.current_pixel_sample_index * n;
        let res = vstd::slice::slice_subrange(arr.as_slice(), start, len);
        self.array_2d_offset += 1;
        Some(res)
    }
}

} // verus!

verus! {

/// The product of the generator matrix `c` (one `u32` per column) with the
/// low `nbits` bits of `g` over GF(2): column `b` of `c` for each bit `b`
/// set in `g`, xored together.
pub open spec fn apply_matrix(c: Seq<u32>, g: u32, nbits: nat) -> u32
    decreases nbits,
{
    if nbits == 0 {
        0
    } else {
        let b = (nbits - 1) as nat;
        apply_matrix(c, g, b) ^ (if (g >> b as u32) & 1u32 == 1u32 {
            c[b as int]
        } else {
            0u32
        })
    }
}

/// The Gray code of `i`.
pub open spec fn gray(i: u32) -> u32 {
    i ^ (i >> 1u32)
}

proof fn lemma_apply_zero(c: Seq<u32>, nbits: nat)
    requires
        nbits <= 32,
    ensures
        apply_matrix(c, 0, nbits) == 0,
    decreases nbits,
{
    if nbits > 0 {
        let b = (nbits - 1) as u32;
        lemma_apply_zero(c, (nbits - 1) as nat);
        assert((0u32 >> b) & 1u32 == 0u32) by (bit_vector);
        assert(0u32 ^ 0u32 == 0u32) by (bit_vector);
    }
}

proof fn lemma_apply_xor(c: Seq<u32>, a: u32, b: u32, nbits: nat)
    requires
        nbits <= 32,
    ensures
        apply_matrix(c, a ^ b, nbits) == apply_matrix(c, a, nbits) ^ apply_matrix(c, b, nbits),
    decreases nbits,
{
    if nbits > 0 {
        let bn = (nbits - 1) as nat;
        let k = bn as u32;
        lemma_apply_xor(c, a, b, (nbits - 1) as nat);
        let ma = apply_matrix(c, a, (nbits - 1) as nat);
        let mb = apply_matrix(c, b, (nbits - 1) as nat);
        let col = c[bn as int];
        assert((((a ^ b) >> k) & 1u32 == 1u32) == (((a >> k) & 1u32 == 1u32) != ((b >> k) & 1u32
            == 1u32))) by (bit_vector)
            requires
                k < 32,
        ;
        let xa = (a >> k) & 1u32 == 1u32;
        let xb = (b >> k) & 1u32 == 1u32;
        assert((ma ^ mb) ^ (if xa != xb {
            col
        } else {
            0u32
        }) == (ma ^ (if xa {
            col
        } else {
            0u32
        })) ^ (mb ^ (if xb {
            col
        } else {
            0u32
        }))) by (bit_vector);
    } else {
        assert(0u32 ^ 0u32 == 0u32) by (bit_vector);
    }
}

proof fn lemma_apply_unit(c: Seq<u32>, t: u32, nbits: nat)
    requires
        nbits <= 32,
        t < 32,
    ensures
        apply_matrix(c, 1u32 << t, nbits) == if t < nbits {
            c[t as int]
        } else {
            0u32
        },
    decreases nbits,
{
    if nbits > 0 {
        let k = (nbits - 1) as u32;
        lemma_apply_unit(c, t, (nbits - 1) as nat);
        assert((((1u32 << t) >> k) & 1u32 == 1u32) == (k == t)) by (bit_vector)
            requires
                k < 32,
                t < 32,
        ;
        let x = c[t as int];
        assert(0u32 ^ x == x) by (bit_vector);
        assert(x ^ 0u32 == x) by (bit_vector);
        assert(0u32 ^ 0u32 == 0u32) by (bit_vector);
    }
}

/// Enumerating the points in Gray-code order, flipping one column of the
/// generator matrix per step, gives at each step the matrix applied to the
/// Gray code of the step's number, scrambled: the sequence visits the same
/// points as the direct product, in another order.
pub proof fn law_gray_code_is_matrix_product(c: Seq<u32>, scramble: u32, i: u32)
    requires
        c.len() >= 32,
    ensures
        gray_code(c, scramble, i as nat) == scramble ^ apply_matrix(c, gray(i), 32),
    decreases i,
{
    if i == 0 {
        lemma_apply_zero(c, 32);
        assert(gray(0) == 0u32) by (bit_vector);
        assert(scramble ^ 0u32 == scramble) by (bit_vector);
    } else {
        let p = (i - 1) as u32;
        law_gray_code_is_matrix_product(c, scramble, p);
        axiom_u32_trailing_zeros(i);
        let t = u32_trailing_zeros(i);
        assert(gray(i) == gray(p) ^ (1u32 << t)) by (bit_vector)
            requires
                i >= 1,
                p == i - 1,
                t < 32,
                (i >> t) & 1u32 == 1u32,
                i << ((32u32 - t) as u32) == 0u32,
        ;
        lemma_apply_xor(c, gray(p), 1u32 << t, 32);
        lemma_apply_unit(c, t, 32);
        let mp = apply_matrix(c, gray(p), 32);
        let col = c[t as int];
        assert((scramble ^ mp) ^ col == scramble ^ (mp ^ col)) by (bit_vector);
    }
}

} // verus!

verus! {

proof fn lemma_unit_columns()
    by (bit_vector)
    ensures
        1u32 << 31u32 == 0x80000000u32,
        1u32 << 30u32 == 0x40000000u32,
        1u32 << 29u32 == 0x20000000u32,
        1u32 << 28u32 == 0x10000000u32,
        1u32 << 27u32 == 0x8000000u32,
        1u32 << 26u32 == 0x4000000u32,
        1u32 << 25u32 == 0x2000000u32,
        1u32 << 24u32 == 0x1000000u32,
        1u32 << 23u32 == 0x800000u32,
        1u32 << 22u32 == 0x400000u32,
        1u32 << 21u32 == 0x200000u32,
        1u32 << 20u32 == 0x100000u32,
        1u32 << 19u32 == 0x80000u32,
        1u32 << 18u32 == 0x40000u32,
        1u32 << 17u32 == 0x20000u32,
        1u32 << 16u32 == 0x10000u32,
        1u32 << 15u32 == 0x8000u32,
        1u32 << 14u32 == 0x4000u32,
        1u32 << 13u32 == 0x2000u32,
        1u32 << 12u32 == 0x1000u32,
        1u32 << 11u32 == 0x800u32,
        1u32 << 10u32 == 0x400u32,
        1u32 << 9u32 == 0x200u32,
        1u32 << 8u32 == 0x100u32,
        1u32 << 7u32 == 0x80u32,
        1u32 << 6u32 == 0x40u32,
        1u32 << 5u32 == 0x20u32,
        1u32 << 4u32 == 0x10u32,
        1u32 << 3u32 == 0x8u32,
        1u32 << 2u32 == 0x4u32,
        1u32 << 1u32 == 0x2u32,
        1u32 << 0u32 == 0x1u32,
{
}

/// Column `b` of the van der Corput generator matrix is bit `31 - b`.
proof fn lemma_van_der_corput_columns()
    ensures
        CVAN_DER_CORPUT@.len() == 32,
        forall|b: int| 0 <= b < 32 ==> #[trigger] CVAN_DER_CORPUT@[b] == (1u32 << (31 - b) as u32),
{
    lemma_unit_columns();
    assert forall|b: int| 0 <= b < 32 implies #[trigger] CVAN_DER_CORPUT@[b] == (1u32 << (31 - b) as u32) by {
        if b == 0 {
            assert(CVAN_DER_CORPUT@[b] == 0x80000000u32);
        }
        if b == 1 {
            assert(CVAN_DER_CORPUT@[b] == 0x40000000u32);
        }
        if b == 2 {
            assert(CVAN_DER_CORPUT@[b] == 0x20000000u32);
        }
        if b == 3 {
            assert(CVAN_DER_CORPUT@[b] == 0x10000000u32);
        }
        if b == 4 {
            assert(CVAN_DER_CORPUT@[b] == 0x8000000u32);
        }
        if b == 5 {
            assert(CVAN_DER_CORPUT@[b] == 0x4000000u32);
        }
        if b == 6 {
            assert(CVAN_DER_CORPUT@[b] == 0x2000000u32);
        }
        if b == 7 {
            assert(CVAN_DER_CORPUT@[b] == 0x1000000u32);
        }
        if b == 8 {
            assert(CVAN_DER_CORPUT@[b] == 0x800000u32);
        }
        if b == 9 {
            assert(CVAN_DER_CORPUT@[b] == 0x400000u32);
        }
        if b == 10 {
            assert(CVAN_DER_CORPUT@[b] == 0x200000u32);
        }
        if b == 11 {
            assert(CVAN_DER_CORPUT@[b] == 0x100000u32);
        }
        if b == 12 {
            assert(CVAN_DER_CORPUT@[b] == 0x80000u32);
        }
        if b == 13 {
            assert(CVAN_DER_CORPUT@[b] == 0x40000u32);
        }
        if b == 14 {
            assert(CVAN_DER_CORPUT@[b] == 0x20000u32);
        }
        if b == 15 {
            assert(CVAN_DER_CORPUT@[b] == 0x10000u32);
        }
        if b == 16 {
            assert(CVAN_DER_CORPUT@[b] == 0x8000u32);
        }
        if b == 17 {
            assert(CVAN_DER_CORPUT@[b] == 0x4000u32);
        }
        if b == 18 {
            assert(CVAN_DER_CORPUT@[b] == 0x2000u32);
        }
        if b == 19 {
            assert(CVAN_DER_CORPUT@[b] == 0x1000u32);
        }
        if b == 20 {
            assert(CVAN_DER_CORPUT@[b] == 0x800u32);
        }
        if b == 21 {
            assert(CVAN_DER_CORPUT@[b] == 0x400u32);
        }
        if b == 22 {
            assert(CVAN_DER_CORPUT@[b] == 0x200u32);
        }
        if b == 23 {
            assert(CVAN_DER_CORPUT@[b] == 0x100u32);
        }
        if b == 24 {
            assert(CVAN_DER_CORPUT@[b] == 0x80u32);
        }
        if b == 25 {
            assert(CVAN_DER_CORPUT@[b] == 0x40u32);
        }
        if b == 26 {
            assert(CVAN_DER_CORPUT@[b] == 0x20u32);
        }
        if b == 27 {
            assert(CVAN_DER_CORPUT@[b] == 0x10u32);
        }
        if b == 28 {
            assert(CVAN_DER_CORPUT@[b] == 0x8u32);
        }
        if b == 29 {
            assert(CVAN_DER_CORPUT@[b] == 0x4u32);
        }
        if b == 30 {
            assert(CVAN_DER_CORPUT@[b] == 0x2u32);
        }
        if b == 31 {
            assert(CVAN_DER_CORPUT@[b] == 0x1u32);
        }
    }
}

proof fn lemma_xor_column_bit(a: u32, k: u32, t: u32, set: bool)
    by (bit_vector)
    requires
        k < 32,
        t < 32,
    ensures
        (((a ^ (if set { 1u32 << ((31u32 - t) as u32) } else { 0u32 })) >> ((31u32 - k) as u32)) & 1u32 == 1u32) == (((a >> ((31u32
            - k) as u32)) & 1u32 == 1u32) != (set && k == t)),
{
}

/// Bit `31 - k` of the van der Corput matrix applied to the low `n` bits of
/// `g` is bit `k` of `g`: the matrix reverses the bits.
proof fn lemma_van_der_corput_bit(g: u32, n: nat, k: u32)
    requires
        n <= 32,
        k < 32,
    ensures
        ((apply_matrix(CVAN_DER_CORPUT@, g, n) >> ((31u32 - k) as u32)) & 1u32 == 1u32) == (k < n && (g >> k)
            & 1u32 == 1u32),
    decreases n,
{
    if n == 0 {
        assert(((0u32 >> ((31u32 - k) as u32)) & 1u32 == 1u32) == false) by (bit_vector)
            requires
                k < 32,
        ;
    } else {
        let bn = (n - 1) as nat;
        let t = bn as u32;
        lemma_van_der_corput_bit(g, bn, k);
        lemma_van_der_corput_columns();
        let a = apply_matrix(CVAN_DER_CORPUT@, g, bn);
        let set = (g >> t) & 1u32 == 1u32;
        lemma_xor_column_bit(a, k, t, set);
        assert(CVAN_DER_CORPUT@[bn as int] == (1u32 << (31 - t) as u32));
    }
}

} // verus!

verus! {

/// The first `2^m` points of the scrambled van der Corput sequence are
/// stratified: any two of them differ in one of their `m` top bits, so each
/// of the `2^m` strata of `[0, 1)` holds exactly one of them.
pub proof fn law_van_der_corput_stratified(scramble: u32, m: u32, i: u32, j: u32)
    requires
        m < 32,
        i < (1u32 << m),
        j < (1u32 << m),
        i != j,
    ensures
        exists|k: u32|
            k < m && #[trigger] ((gray_code(CVAN_DER_CORPUT@, scramble, i as nat) >> ((31u32 - k) as u32))
                & 1u32) != ((gray_code(CVAN_DER_CORPUT@, scramble, j as nat) >> ((31u32 - k) as u32)) & 1u32),
{
    lemma_van_der_corput_columns();
    law_gray_code_is_matrix_product(CVAN_DER_CORPUT@, scramble, i);
    law_gray_code_is_matrix_product(CVAN_DER_CORPUT@, scramble, j);
    let gi = gray(i);
    let gj = gray(j);
    assert(gi != gj && gi < (1u32 << m) && gj < (1u32 << m)) by (bit_vector)
        requires
            m < 32,
            i < (1u32 << m),
            j < (1u32 << m),
            i != j,
            gi == i ^ (i >> 1u32),
            gj == j ^ (j >> 1u32),
    ;
    let x = gi ^ gj;
    axiom_u32_trailing_zeros(x);
    let t = u32_trailing_zeros(x);
    assert(x != 0u32) by (bit_vector)
        requires
            gi != gj,
            x == gi ^ gj,
    ;
    assert(t < m && ((gi >> t) & 1u32 == 1u32) != ((gj >> t) & 1u32 == 1u32)) by (bit_vector)
        requires
            m < 32,
            gi < (1u32 << m),
            gj < (1u32 << m),
            x == gi ^ gj,
            t < 32,
            (x >> t) & 1u32 == 1u32,
            x << ((32u32 - t) as u32) == 0u32,
    ;
    lemma_van_der_corput_bit(gi, 32, t);
    lemma_van_der_corput_bit(gj, 32, t);
    let mi = apply_matrix(CVAN_DER_CORPUT@, gi, 32);
    let mj = apply_matrix(CVAN_DER_CORPUT@, gj, 32);
    assert((((scramble ^ mi) >> ((31u32 - t) as u32)) & 1u32) != (((scramble ^ mj) >> ((31u32 - t) as u32)) & 1u32))
        by (bit_vector)
        requires
            t < 32,
            ((mi >> ((31u32 - t) as u32)) & 1u32 == 1u32) != ((mj >> ((31u32 - t) as u32)) & 1u32 == 1u32),
    ;
}

} // verus!
