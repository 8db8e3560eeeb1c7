//! Embedding vectors and cosine similarity.
//!
//! An embedding is a fixed-length vector of fixed-point components: each
//! component is an `i32` within `COMPONENT_LIMIT` of zero, standing for a
//! real value between minus ten and ten at `SCALE` units per whole.
//! Similarities are fixed-point values in `[-SCALE, SCALE]`. The component
//! range is what lets the cosine arithmetic stay exact in bounded integers.

use vstd::prelude::*;
use vstd::arithmetic::mul::*;
use vstd::arithmetic::div_mod::*;
use crate::SCALE;

verus! {

/// The largest dimension an embedding may have.
pub const MAX_DIM: usize = 65536;

/// The largest magnitude an embedding component may have: ten whole units.
pub const COMPONENT_LIMIT: i32 = 10_000_000;

/// A well-formed embedding: bounded length, every component within
/// `COMPONENT_LIMIT` of zero.
pub open spec fn wf_embedding(s: Seq<i32>) -> bool {
    &&& s.len() <= MAX_DIM
    &&& forall|i: int| 0 <= i < s.len() ==> -(COMPONENT_LIMIT as int) <= #[trigger] s[i]
        <= COMPONENT_LIMIT as int
}

/// The dot product of the first `n` components of two vectors.
pub open spec fn dot_prefix(a: Seq<i32>, b: Seq<i32>, n: int) -> int
    decreases n,
{
    if n <= 0 {
        0
    } else {
        dot_prefix(a, b, n - 1) + a[n - 1] * b[n - 1]
    }
}

/// The dot product of two equal-length vectors.
pub open spec fn dot_of(a: Seq<i32>, b: Seq<i32>) -> int {
    dot_prefix(a, b, a.len() as int)
}

/// The squared Euclidean norm of a vector.
pub open spec fn norm_sq_of(a: Seq<i32>) -> int {
    dot_of(a, a)
}

/// `r` is the integer square root of `n`.
pub open spec fn is_sqrt(n: int, r: int) -> bool {
    &&& 0 <= r
    &&& r * r <= n
    &&& n < (r + 1) * (r + 1)
}

/// The integer square root: the largest `r` with `r * r <= n`.
pub open spec fn sqrt_nat(n: nat) -> nat {
    choose|r: nat| is_sqrt(n as int, r as int)
}

/// Every natural number has an integer square root.
pub proof fn lemma_sqrt_exists(n: nat)
    ensures
        is_sqrt(n as int, sqrt_nat(n) as int),
    decreases n,
{
    if n == 0 {
        assert(is_sqrt(0, 0)) by (nonlinear_arith);
    } else {
        lemma_sqrt_exists((n - 1) as nat);
        let p = sqrt_nat((n - 1) as nat);
        if (p + 1) * (p + 1) <= n {
            assert(is_sqrt(n as int, (p + 1) as int)) by (nonlinear_arith)
                requires
                    is_sqrt(n as int - 1, p as int),
                    (p + 1) * (p + 1) <= n,
            ;
        } else {
            assert(is_sqrt(n as int, p as int));
        }
    }
    let w = choose|r: nat| is_sqrt(n as int, r as int);
    assert(is_sqrt(n as int, w as int));
}

/// The integer square root is unique.
pub proof fn lemma_sqrt_unique(n: nat, r: nat)
    requires
        is_sqrt(n as int, r as int),
    ensures
        r == sqrt_nat(n),
{
    lemma_sqrt_exists(n);
    let s = sqrt_nat(n);
    assert(r == s) by (nonlinear_arith)
        requires
            is_sqrt(n as int, r as int),
            is_sqrt(n as int, s as int),
    ;
}

/// The square root of a perfect square.
pub proof fn lemma_sqrt_square(n: nat)
    ensures
        sqrt_nat(n * n) == n,
{
    assert(is_sqrt((n * n) as int, n as int)) by (nonlinear_arith);
    lemma_sqrt_unique(n * n, n);
}

/// Compute the integer square root of `n` by binary search.
pub fn isqrt_u128(n: u128) -> (r: u128)
    ensures
        is_sqrt(n as int, r as int),
        r == sqrt_nat(n as nat),
{
    let mut lo: u128 = 0;
    let mut hi: u128 = 0xFFFF_FFFF_FFFF_FFFF;
    assert((0xFFFF_FFFF_FFFF_FFFFu128 + 1) * (0xFFFF_FFFF_FFFF_FFFFu128 + 1) > u128::MAX)
        by (nonlinear_arith);
    while lo < hi
        invariant
            lo <= hi <= 0xFFFF_FFFF_FFFF_FFFFu128,
            lo * lo <= n,
            (hi + 1) * (hi + 1) > n,
        decreases hi - lo,
    {
        let mid = lo + (hi - lo + 1) / 2;
        assert(lo < mid <= hi);
        assert(mid * mid <= u128::MAX) by (nonlinear_arith)
            requires
                mid <= 0xFFFF_FFFF_FFFF_FFFFu128,
        ;
        if mid * mid <= n {
            lo = mid;
        } else {
            hi = mid - 1;
        }
    }
    proof {
        lemma_sqrt_unique(n as nat, lo as nat);
    }
    lo
}

/// The fixed-point cosine similarity of two vectors: the dot product over
/// the product of the norms, scaled by `SCALE`, rounded toward zero and
/// clamped into `[-SCALE, SCALE]`. Zero when the lengths differ or either
/// norm is zero.
pub open spec fn cosine_of(a: Seq<i32>, b: Seq<i32>) -> int {
    if a.len() != b.len() {
        0
    } else {
        let d = dot_of(a, b);
        let np = norm_sq_of(a) * norm_sq_of(b);
        if np <= 0 {
            0
        } else {
            let s = sqrt_nat(np as nat) as int;
            let mag = if d < 0 { -d } else { d };
            let q = mag * SCALE / s;
            let qc = if q > SCALE { SCALE as int } else { q };
            if d < 0 { -qc } else { qc }
        }
    }
}

/// A term of a dot product of well-formed vectors is bounded by the square
/// of the component limit.
proof fn lemma_term_bound(x: int, y: int)
    requires
        -(COMPONENT_LIMIT as int) <= x <= COMPONENT_LIMIT as int,
        -(COMPONENT_LIMIT as int) <= y <= COMPONENT_LIMIT as int,
    ensures
        -(COMPONENT_LIMIT as int) * (COMPONENT_LIMIT as int) <= x * y <= (COMPONENT_LIMIT as int)
            * (COMPONENT_LIMIT as int),
{
    assert(-(COMPONENT_LIMIT as int) * (COMPONENT_LIMIT as int) <= x * y <= (
    COMPONENT_LIMIT as int) * (COMPONENT_LIMIT as int)) by (nonlinear_arith)
        requires
            -(COMPONENT_LIMIT as int) <= x <= COMPONENT_LIMIT as int,
            -(COMPONENT_LIMIT as int) <= y <= COMPONENT_LIMIT as int,
    ;
}

/// A prefix of a squared norm is nonnegative and below `n` squares of the
/// component limit.
proof fn lemma_norm_prefix_bounds(a: Seq<i32>, n: int)
    requires
        0 <= n <= a.len(),
        wf_embedding(a),
    ensures
        0 <= dot_prefix(a, a, n) <= n * (COMPONENT_LIMIT as int) * (COMPONENT_LIMIT as int),
    decreases n,
{
    if n > 0 {
        lemma_norm_prefix_bounds(a, n - 1);
        assert(0 <= a[n - 1] * a[n - 1] <= (COMPONENT_LIMIT as int) * (COMPONENT_LIMIT as int))
            by (nonlinear_arith)
            requires
                -(COMPONENT_LIMIT as int) <= a[n - 1] <= COMPONENT_LIMIT as int,
        ;
        assert((n - 1) * (COMPONENT_LIMIT as int) * (COMPONENT_LIMIT as int) + (
        COMPONENT_LIMIT as int) * (COMPONENT_LIMIT as int) == n * (COMPONENT_LIMIT as int) * (
        COMPONENT_LIMIT as int)) by (nonlinear_arith);
    }
}

/// Compute the cosine similarity of two vectors.
///
/// Returns zero when the lengths differ or either vector has zero norm;
/// otherwise the fixed-point cosine, in `[-SCALE, SCALE]`.
pub fn cosine_similarity(a: &Vec<i32>, b: &Vec<i32>) -> (r: i64)
    requires
        wf_embedding(a@),
        wf_embedding(b@),
    ensures
        r == cosine_of(a@, b@),
        -(SCALE as int) <= r <= SCALE as int,
{
    if a.len() != b.len() {
        return 0;
    }
    let n = a.len();
    let mut dot: i128 = 0;
    let mut na: i128 = 0;
    let mut nb: i128 = 0;
    let mut i: usize = 0;
    while i < n
        invariant
            n == a@.len() == b@.len(),
            wf_embedding(a@),
            wf_embedding(b@),
            0 <= i <= n,
            dot == dot_prefix(a@, b@, i as int),
            na == dot_prefix(a@, a@, i as int),
            nb == dot_prefix(b@, b@, i as int),
            -(i as int) * (COMPONENT_LIMIT as int) * (COMPONENT_LIMIT as int) <= dot
                <= (i as int) * (COMPONENT_LIMIT as int) * (COMPONENT_LIMIT as int),
            0 <= na <= (i as int) * (COMPONENT_LIMIT as int) * (COMPONENT_LIMIT as int),
            0 <= nb <= (i as int) * (COMPONENT_LIMIT as int) * (COMPONENT_LIMIT as int),
        decreases n - i,
    {
        let x = a[i] as i128;
        let y = b[i] as i128;
        proof {
            lemma_term_bound(x as int, y as int);
            lemma_term_bound(x as int, x as int);
            lemma_term_bound(y as int, y as int);
            assert(0 <= x * x && 0 <= y * y) by (nonlinear_arith);
            assert((i as int) * (COMPONENT_LIMIT as int) * (COMPONENT_LIMIT as int) + (
            COMPONENT_LIMIT as int) * (COMPONENT_LIMIT as int) == (i as int + 1) * (
            COMPONENT_LIMIT as int) * (COMPONENT_LIMIT as int)) by (nonlinear_arith);
            assert((i as int + 1) * (COMPONENT_LIMIT as int) * (COMPONENT_LIMIT as int)
                <= (MAX_DIM as int) * (COMPONENT_LIMIT as int) * (COMPONENT_LIMIT as int))
                by (nonlinear_arith)
                requires
                    i as int + 1 <= MAX_DIM as int,
            ;
        }
        dot = dot + x * y;
        na = na + x * x;
        nb = nb + y * y;
        i = i + 1;
    }
    proof {
        lemma_norm_prefix_bounds(a@, n as int);
        lemma_norm_prefix_bounds(b@, n as int);
    }
    let nau = na as u128;
    let nbu = nb as u128;
    proof {
        assert(nau * nbu
            <= ((MAX_DIM as int) * (COMPONENT_LIMIT as int) * (COMPONENT_LIMIT as int))
                * ((MAX_DIM as int) * (COMPONENT_LIMIT as int) * (COMPONENT_LIMIT as int)))
            by (nonlinear_arith)
            requires
                0 <= nau <= (MAX_DIM as int) * (COMPONENT_LIMIT as int) * (COMPONENT_LIMIT as int),
                0 <= nbu <= (MAX_DIM as int) * (COMPONENT_LIMIT as int) * (COMPONENT_LIMIT as int),
        ;
        assert(((65536int * 10_000_000 * 10_000_000) * (65536int * 10_000_000 * 10_000_000))
            <= u128::MAX) by (nonlinear_arith);
    }
    let np: u128 = nau * nbu;
    if np == 0 {
        return 0;
    }
    let s = isqrt_u128(np);
    assert(s >= 1) by (nonlinear_arith)
        requires
            is_sqrt(np as int, s as int),
            np >= 1,
    ;
    let neg = dot < 0;
    let mag: u128 = if neg { (-dot) as u128 } else { dot as u128 };
    let q: u128 = mag * (SCALE as u128) / (s as u128);
    let qc: u64 = if q > SCALE as u128 { SCALE } else { q as u64 };
    let r: i64 = if neg { -(qc as i64) } else { qc as i64 };
    r
}

/// A non-zero vector has cosine similarity exactly one with itself.
pub proof fn lemma_cosine_self(a: Seq<i32>)
    requires
        norm_sq_of(a) > 0,
    ensures
        cosine_of(a, a) == SCALE as int,
{
    let nq = norm_sq_of(a);
    assert(nq * nq > 0) by (nonlinear_arith)
        requires
            nq > 0,
    ;
    lemma_sqrt_square(nq as nat);
    assert(dot_of(a, a) == nq);
    lemma_div_multiples_vanish(SCALE as int, nq);
    assert(nq * (SCALE as int) == (SCALE as int) * nq) by (nonlinear_arith);
    assert(nq * (SCALE as int) / nq == SCALE as int);
}

/// Signed division rounding toward zero, as the running average uses it.
pub open spec fn div_to_zero(s: int, c: int) -> int {
    if s >= 0 {
        s / c
    } else {
        -((-s) / c)
    }
}

/// The sum of component `j` across a list of vectors (vectors too short to
/// have one contribute nothing).
pub open spec fn sum_at(embs: Seq<Seq<i32>>, j: int) -> int
    decreases embs.len(),
{
    if embs.len() == 0 {
        0
    } else {
        let last = embs.last();
        let c: int = if 0 <= j < last.len() {
            last[j] as int
        } else {
            0
        };
        sum_at(embs.drop_last(), j) + c
    }
}

/// The per-component mean of a list of vectors, rounded toward zero.
pub open spec fn mean_vector(embs: Seq<Seq<i32>>, dim: int) -> Seq<int> {
    Seq::new(dim as nat, |j: int| div_to_zero(sum_at(embs, j), embs.len() as int))
}

/// A vector scaled to unit length in fixed point: each component is scaled
/// by `SCALE` over the integer square root of the squared norm, rounding
/// toward zero; a zero vector stays as it is.
pub open spec fn normalized(v: Seq<int>, nq: int) -> Seq<int> {
    if nq == 0 {
        v
    } else {
        Seq::new(v.len(), |j: int| div_to_zero(v[j] * SCALE, sqrt_nat(nq as nat) as int))
    }
}

/// A bound on the sum of one component across bounded vectors.
proof fn lemma_sum_at_bound(embs: Seq<Seq<i32>>, j: int)
    requires
        forall|i: int| 0 <= i < embs.len() ==> wf_embedding(#[trigger] embs[i]),
    ensures
        -(embs.len() as int) * (COMPONENT_LIMIT as int) <= sum_at(embs, j) <= (
        embs.len() as int) * (COMPONENT_LIMIT as int),
    decreases embs.len(),
{
    if embs.len() > 0 {
        assert(forall|i: int| 0 <= i < embs.drop_last().len() ==> wf_embedding(
            #[trigger] embs.drop_last()[i],
        ));
        lemma_sum_at_bound(embs.drop_last(), j);
        assert(embs.last() == embs[embs.len() - 1]);
        assert(((embs.len() - 1) as int) * (COMPONENT_LIMIT as int) + (COMPONENT_LIMIT as int)
            == (embs.len() as int) * (COMPONENT_LIMIT as int)) by (nonlinear_arith);
    }
}

/// A component's square never exceeds the squared norm of its vector.
proof fn lemma_elem_sq_le_norm(a: Seq<i32>, j: int, n: int)
    requires
        0 <= j < n <= a.len(),
    ensures
        (a[j] as int) * (a[j] as int) <= dot_prefix(a, a, n),
    decreases n,
{
    if j == n - 1 {
        lemma_norm_prefix_nonneg(a, n - 1);
    } else {
        lemma_elem_sq_le_norm(a, j, n - 1);
        assert(0 <= a[n - 1] * a[n - 1]) by (nonlinear_arith);
    }
}

/// A prefix of a squared norm is nonnegative, for any vector.
proof fn lemma_norm_prefix_nonneg(a: Seq<i32>, n: int)
    requires
        0 <= n <= a.len(),
    ensures
        0 <= dot_prefix(a, a, n),
    decreases n,
{
    if n > 0 {
        lemma_norm_prefix_nonneg(a, n - 1);
        assert(0 <= a[n - 1] * a[n - 1]) by (nonlinear_arith);
    }
}

/// Average a non-empty list of same-dimension vectors: the per-component
/// mean, scaled to unit length when the mean is not the zero vector. The
/// result is a well-formed embedding of the same dimension.
pub fn average_embeddings(embs: &Vec<Vec<i32>>, dim: usize) -> (r: Vec<i32>)
    requires
        1 <= embs@.len() <= 1_000_000_000,
        dim <= MAX_DIM,
        forall|i: int| 0 <= i < embs@.len() ==> (#[trigger] embs@[i])@.len() == dim,
        forall|i: int| 0 <= i < embs@.len() ==> wf_embedding((#[trigger] embs@[i])@),
    ensures
        r@.len() == dim,
        wf_embedding(r@),
        r@.map_values(|c: i32| c as int) == normalized(
            mean_vector(embs.deep_view(), dim as int),
            norm_sq_int(mean_vector(embs.deep_view(), dim as int)),
        ),
{
    let ghost dv = embs.deep_view();
    let count = embs.len();
    let mut mean: Vec<i32> = Vec::new();
    let mut j: usize = 0;
    while j < dim
        invariant
            1 <= count == embs@.len() <= 1_000_000_000,
            dim <= MAX_DIM,
            dv == embs.deep_view(),
            forall|i: int| 0 <= i < embs@.len() ==> (#[trigger] embs@[i])@.len() == dim,
            forall|i: int| 0 <= i < embs@.len() ==> wf_embedding((#[trigger] embs@[i])@),
            0 <= j <= dim,
            mean@.len() == j,
            forall|t: int| 0 <= t < j ==> #[trigger] mean@[t] as int == div_to_zero(
                sum_at(dv, t),
                count as int,
            ),
            forall|t: int| 0 <= t < j ==> -(COMPONENT_LIMIT as int) <= #[trigger] mean@[t]
                <= COMPONENT_LIMIT as int,
        decreases dim - j,
    {
        let mut sum: i64 = 0;
        let mut i: usize = 0;
        while i < count
            invariant
                1 <= count == embs@.len() <= 1_000_000_000,
                dv == embs.deep_view(),
                j < dim,
                forall|t: int| 0 <= t < embs@.len() ==> (#[trigger] embs@[t])@.len() == dim,
                forall|t: int| 0 <= t < embs@.len() ==> wf_embedding((#[trigger] embs@[t])@),
                0 <= i <= count,
                sum as int == sum_at(dv.take(i as int), j as int),
                -(i as int) * (COMPONENT_LIMIT as int) <= sum as int <= (i as int) * (
                COMPONENT_LIMIT as int),
            decreases count - i,
        {
            let c = embs[i][j];
            proof {
                assert(dv.take(i as int + 1).drop_last() =~= dv.take(i as int));
                assert(dv.take(i as int + 1).last() == dv[i as int]);
                assert(dv[i as int] == embs@[i as int]@);
                assert(((i as int) + 1) * (COMPONENT_LIMIT as int) == (i as int) * (
                COMPONENT_LIMIT as int) + (COMPONENT_LIMIT as int)) by (nonlinear_arith);
            }
            sum = sum + (c as i64);
            i = i + 1;
        }
        proof {
            assert(dv.take(count as int) =~= dv);
        }
        let avg: i64 = if sum >= 0 {
            ((sum as u64) / (count as u64)) as i64
        } else {
            -((((-sum) as u64) / (count as u64)) as i64)
        };
        proof {
            let m = if sum >= 0 {
                sum as int
            } else {
                -(sum as int)
            };
            vstd::arithmetic::div_mod::lemma_div_is_ordered(
                m,
                (count as int) * (COMPONENT_LIMIT as int),
                count as int,
            );
            vstd::arithmetic::div_mod::lemma_div_pos_is_pos(m, count as int);
            assert((count as int) * (COMPONENT_LIMIT as int) == (COMPONENT_LIMIT as int) * (
            count as int)) by (nonlinear_arith);
            vstd::arithmetic::div_mod::lemma_div_by_multiple(COMPONENT_LIMIT as int, count as int);
        }
        mean.push(avg as i32);
        j = j + 1;
    }
    proof {
        assert(mean@.map_values(|c: i32| c as int) =~= mean_vector(dv, dim as int));
    }

    // squared norm of the mean
    let mut nq_acc: i128 = 0;
    let mut t: usize = 0;
    while t < dim
        invariant
            dim <= MAX_DIM,
            mean@.len() == dim,
            forall|k: int| 0 <= k < dim ==> -(COMPONENT_LIMIT as int) <= #[trigger] mean@[k]
                <= COMPONENT_LIMIT as int,
            0 <= t <= dim,
            nq_acc == dot_prefix(mean@, mean@, t as int),
            0 <= nq_acc <= (t as int) * (COMPONENT_LIMIT as int) * (COMPONENT_LIMIT as int),
        decreases dim - t,
    {
        let x = mean[t] as i128;
        proof {
            lemma_term_bound(x as int, x as int);
            assert(0 <= x * x) by (nonlinear_arith);
            assert((t as int) * (COMPONENT_LIMIT as int) * (COMPONENT_LIMIT as int) + (
            COMPONENT_LIMIT as int) * (COMPONENT_LIMIT as int) == (t as int + 1) * (
            COMPONENT_LIMIT as int) * (COMPONENT_LIMIT as int)) by (nonlinear_arith);
            assert((t as int + 1) * (COMPONENT_LIMIT as int) * (COMPONENT_LIMIT as int)
                <= (MAX_DIM as int) * (COMPONENT_LIMIT as int) * (COMPONENT_LIMIT as int))
                by (nonlinear_arith)
                requires
                    t as int + 1 <= MAX_DIM as int,
            ;
        }
        nq_acc = nq_acc + x * x;
        t = t + 1;
    }
    proof {
        assert(norm_sq_int(mean_vector(dv, dim as int)) == dot_prefix(
            mean@,
            mean@,
            dim as int,
        )) by {
            lemma_norm_sq_int_matches(mean@, dim as int);
        }
    }
    if nq_acc == 0 {
        proof {
            assert(mean@.map_values(|c: i32| c as int) =~= normalized(
                mean_vector(dv, dim as int),
                0,
            ));
        }
        return mean;
    }
    let s = isqrt_u128(nq_acc as u128);
    assert(s >= 1) by (nonlinear_arith)
        requires
            is_sqrt(nq_acc as int, s as int),
            nq_acc >= 1,
    ;
    assert(s <= 0xF_FFFF_FFFFu128) by (nonlinear_arith)
        requires
            (s as int) * (s as int) <= nq_acc as int,
            nq_acc <= (65536int * 10_000_000 * 10_000_000),
            0 <= s,
    ;
    let mut out: Vec<i32> = Vec::new();
    let mut u: usize = 0;
    while u < dim
        invariant
            dim <= MAX_DIM,
            mean@.len() == dim,
            forall|k: int| 0 <= k < dim ==> -(COMPONENT_LIMIT as int) <= #[trigger] mean@[k]
                <= COMPONENT_LIMIT as int,
            nq_acc == dot_prefix(mean@, mean@, dim as int),
            nq_acc >= 1,
            nq_acc <= (MAX_DIM as int) * (COMPONENT_LIMIT as int) * (COMPONENT_LIMIT as int),
            1 <= s <= 0xF_FFFF_FFFFu128,
            s as int == sqrt_nat(nq_acc as nat) as int,
            is_sqrt(nq_acc as int, s as int),
            0 <= u <= dim,
            out@.len() == u,
            forall|k: int| 0 <= k < u ==> #[trigger] out@[k] as int == div_to_zero(
                (mean@[k] as int) * (SCALE as int),
                s as int,
            ),
            forall|k: int| 0 <= k < u ==> -(SCALE as int) <= #[trigger] out@[k] <= SCALE as int,
        decreases dim - u,
    {
        let c = mean[u];
        proof {
            lemma_elem_sq_le_norm(mean@, u as int, dim as int);
            let m = if c >= 0 {
                c as int
            } else {
                -(c as int)
            };
            assert(m * m <= nq_acc as int) by (nonlinear_arith)
                requires
                    (c as int) * (c as int) <= nq_acc as int,
                    m == (if c >= 0 {
                        c as int
                    } else {
                        -(c as int)
                    }),
            ;
            assert(m <= s as int) by (nonlinear_arith)
                requires
                    m * m <= nq_acc as int,
                    is_sqrt(nq_acc as int, s as int),
                    0 <= m,
            ;
            assert(m * (SCALE as int) <= (s as int) * (SCALE as int)) by (nonlinear_arith)
                requires
                    m <= s as int,
                    0 <= m,
            ;
            vstd::arithmetic::div_mod::lemma_div_is_ordered(
                m * (SCALE as int),
                (s as int) * (SCALE as int),
                s as int,
            );
            assert((s as int) * (SCALE as int) == (SCALE as int) * (s as int))
                by (nonlinear_arith);
            vstd::arithmetic::div_mod::lemma_div_by_multiple(SCALE as int, s as int);
            
        }
        let scaled: i64 = if c >= 0 {
            (((c as u64) * SCALE) / (s as u64)) as i64
        } else {
            -(((((-(c as i64)) as u64) * SCALE) / (s as u64)) as i64)
        };
        proof {
            let m = if c >= 0 {
                c as int
            } else {
                -(c as int)
            };
            vstd::arithmetic::div_mod::lemma_div_pos_is_pos(m * (SCALE as int), s as int);
            assert(m * (SCALE as int) == (if c >= 0 {
                (c as int) * (SCALE as int)
            } else {
                -((c as int) * (SCALE as int))
            })) by (nonlinear_arith)
                requires
                    m == (if c >= 0 {
                        c as int
                    } else {
                        -(c as int)
                    }),
            ;
            assert(scaled as int == div_to_zero((mean@[u as int] as int) * (SCALE as int), s as int));
            assert(-(SCALE as int) <= scaled as int <= SCALE as int);
        }
        out.push(scaled as i32);
        u = u + 1;
    }
    proof {
        assert(out@.map_values(|c: i32| c as int) =~= normalized(
            mean_vector(dv, dim as int),
            nq_acc as int,
        ));
    }
    out
}

/// The squared norm of an integer vector.
pub open spec fn norm_sq_int(v: Seq<int>) -> int
    decreases v.len(),
{
    if v.len() == 0 {
        0
    } else {
        norm_sq_int(v.drop_last()) + v.last() * v.last()
    }
}

/// The squared norm of a component vector agrees with the prefix form.
proof fn lemma_norm_sq_int_matches(a: Seq<i32>, n: int)
    requires
        n == a.len(),
    ensures
        norm_sq_int(a.map_values(|c: i32| c as int)) == dot_prefix(a, a, n),
    decreases n,
{
    if n > 0 {
        lemma_norm_sq_int_matches(a.drop_last(), n - 1);
        assert(a.drop_last().map_values(|c: i32| c as int) =~= a.map_values(
            |c: i32| c as int,
        ).drop_last());
        assert(dot_prefix(a.drop_last(), a.drop_last(), n - 1) == dot_prefix(a, a, n - 1)) by {
            lemma_dot_prefix_same(a.drop_last(), a, n - 1);
        }
    }
}

/// Prefix dot products agree on vectors that agree on the prefix.
proof fn lemma_dot_prefix_same(a: Seq<i32>, b: Seq<i32>, n: int)
    requires
        0 <= n <= a.len(),
        n <= b.len(),
        forall|k: int| 0 <= k < n ==> a[k] == b[k],
    ensures
        dot_prefix(a, a, n) == dot_prefix(b, b, n),
    decreases n,
{
    if n > 0 {
        lemma_dot_prefix_same(a, b, n - 1);
    }
}

/// Two vectors with dot product zero have cosine similarity zero. In
/// particular orthogonal unit vectors do.
pub proof fn lemma_cosine_orthogonal(a: Seq<i32>, b: Seq<i32>)
    requires
        a.len() == b.len(),
        dot_of(a, b) == 0,
    ensures
        cosine_of(a, b) == 0,
{
    let np = norm_sq_of(a) * norm_sq_of(b);
    if np > 0 {
        lemma_sqrt_exists(np as nat);
        let s = sqrt_nat(np as nat) as int;
        assert(s >= 1) by (nonlinear_arith)
            requires
                is_sqrt(np, s),
                np >= 1,
        ;
        assert(0int * (SCALE as int) == 0) by (nonlinear_arith);
        assert(0int / s == 0) by {
            lemma_div_of0(s);
        }
    }
}

} // verus!
