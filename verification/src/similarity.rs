//! Cosine similarity over fixed-point embedding vectors.
//!
//! Embedding coordinates are integers in a fixed-point scale: the value `1.0`
//! is represented by `SIMILARITY_SCALE`.  Cosine similarity of two vectors is
//! the dot product divided by the product of the Euclidean norms, expressed in
//! the same scale, with the quotient truncated toward zero.  When either
//! vector has zero norm the similarity is defined to be `0`, so threshold
//! comparisons stay well-defined on degenerate inputs.

use vstd::prelude::*;

verus! {

/// Fixed-point representation of the similarity value `1.0`.
pub const SIMILARITY_SCALE: i64 = 10000;

/// Largest magnitude allowed for a single embedding coordinate.
pub const MAX_COORD: i64 = 1000000;

/// Largest embedding dimension accepted by the similarity primitive.
pub const MAX_DIM: usize = 65536;

/// The coordinates of a vector, as unbounded integers.
pub open spec fn ints(s: Seq<i64>) -> Seq<int> {
    s.map_values(|x: i64| x as int)
}

/// Every coordinate of `s` lies in `[-MAX_COORD, MAX_COORD]`.
pub open spec fn bounded_coords(s: Seq<i64>) -> bool {
    forall|i: int| 0 <= i < s.len() ==> -MAX_COORD <= #[trigger] s[i] <= MAX_COORD
}

/// A vector fit to be handed to the similarity primitive.
pub open spec fn valid_vector(s: Seq<i64>) -> bool {
    s.len() <= MAX_DIM && bounded_coords(s)
}

/// Mathematical dot product of two equally long integer vectors.
pub open spec fn dot(a: Seq<int>, b: Seq<int>) -> int
    decreases a.len(),
{
    if a.len() == 0 || b.len() == 0 {
        0
    } else {
        dot(a.drop_last(), b.drop_last()) + a.last() * b.last()
    }
}

/// Squared Euclidean norm of an integer vector.
pub open spec fn norm2(a: Seq<int>) -> int {
    dot(a, a)
}

/// `r` is the integer square root of `n`, rounded down.
pub open spec fn is_isqrt(n: int, r: int) -> bool {
    0 <= r && r * r <= n && n < (r + 1) * (r + 1)
}

/// The integer square root of a non-negative `n`, rounded down.
pub open spec fn isqrt(n: int) -> int {
    choose|r: int| is_isqrt(n, r)
}

/// Integer division truncated toward zero, for a positive divisor.
pub open spec fn tdiv(x: int, d: int) -> int
    recommends
        d > 0,
{
    if x >= 0 {
        x / d
    } else {
        -((-x) / d)
    }
}

/// Cosine similarity of two integer vectors, in the fixed-point scale.
///
/// The quotient is truncated toward zero; a vector of zero norm makes the
/// similarity `0` by definition rather than leaving it undefined.
pub open spec fn cosine(a: Seq<int>, b: Seq<int>) -> int {
    if norm2(a) == 0 || norm2(b) == 0 {
        0
    } else {
        tdiv(dot(a, b) * SIMILARITY_SCALE, isqrt(norm2(a) * norm2(b)))
    }
}

/// Cosine similarity of two fixed-point vectors, by their views.
pub open spec fn cosine_of(a: Seq<i64>, b: Seq<i64>) -> int {
    cosine(ints(a), ints(b))
}

/// A squared norm is never negative.
pub proof fn lemma_norm2_nonneg(a: Seq<int>)
    ensures
        norm2(a) >= 0,
    decreases a.len(),
{
    if a.len() != 0 {
        lemma_norm2_nonneg(a.drop_last());
        assert(a.last() * a.last() >= 0) by (nonlinear_arith);
    }
}

/// The dot product does not depend on the order of its arguments.
pub proof fn lemma_dot_symmetric(a: Seq<int>, b: Seq<int>)
    ensures
        dot(a, b) == dot(b, a),
    decreases a.len(),
{
    if a.len() != 0 && b.len() != 0 {
        lemma_dot_symmetric(a.drop_last(), b.drop_last());
        assert(a.last() * b.last() == b.last() * a.last()) by (nonlinear_arith);
    }
}

/// Cauchy-Schwarz: the squared dot product is at most the product of the
/// squared norms.
pub proof fn lemma_cauchy_schwarz(a: Seq<int>, b: Seq<int>)
    requires
        a.len() == b.len(),
    ensures
        dot(a, b) * dot(a, b) <= norm2(a) * norm2(b),
    decreases a.len(),
{
    if a.len() == 0 {
    } else {
        let a1 = a.drop_last();
        let b1 = b.drop_last();
        lemma_cauchy_schwarz(a1, b1);
        lemma_norm2_nonneg(a1);
        lemma_norm2_nonneg(b1);
        let d = dot(a1, b1);
        let p = norm2(a1);
        let q = norm2(b1);
        let x = a.last();
        let y = b.last();
        let xx = x * x;
        let yy = y * y;
        let xy = x * y;
        let m1 = p * yy;
        let m2 = q * xx;
        let s = m1 + m2;
        let u = 2 * (d * xy);
        assert(s >= 0) by (nonlinear_arith)
            requires
                m1 == p * yy,
                m2 == q * xx,
                s == m1 + m2,
                xx == x * x,
                yy == y * y,
                p >= 0,
                q >= 0,
        ;
        assert(s * s - 4 * (m1 * m2) == (m1 - m2) * (m1 - m2)) by (nonlinear_arith)
            requires
                s == m1 + m2,
        ;
        assert((m1 - m2) * (m1 - m2) >= 0) by (nonlinear_arith);
        assert(m1 * m2 == (p * q) * (yy * xx)) by (nonlinear_arith)
            requires
                m1 == p * yy,
                m2 == q * xx,
        ;
        assert(yy * xx == xy * xy) by (nonlinear_arith)
            requires
                xx == x * x,
                yy == y * y,
                xy == x * y,
        ;
        assert((p * q) * (xy * xy) >= (d * d) * (xy * xy)) by (nonlinear_arith)
            requires
                d * d <= p * q,
        ;
        assert(u * u == 4 * ((d * d) * (xy * xy))) by (nonlinear_arith)
            requires
                u == 2 * (d * xy),
        ;
        assert(u * u <= s * s);
        assert(u <= s) by (nonlinear_arith)
            requires
                s >= 0,
                u * u <= s * s,
        ;
        assert((d + xy) * (d + xy) == d * d + u + xy * xy) by (nonlinear_arith)
            requires
                u == 2 * (d * xy),
                xy == xy,
        ;
        assert((p + xx) * (q + yy) == p * q + s + xx * yy) by (nonlinear_arith)
            requires
                s == m1 + m2,
                m1 == p * yy,
                m2 == q * xx,
        ;
        assert(xy * xy == xx * yy) by (nonlinear_arith)
            requires
                xx == x * x,
                yy == y * y,
                xy == x * y,
        ;
        assert((d + xy) * (d + xy) <= (p + xx) * (q + yy));
        assert(dot(a, b) == d + x * y);
        assert(norm2(a) == p + x * x);
        assert(norm2(b) == q + y * y);
    }
}

/// A rounded-down square root exists for every non-negative integer.
pub proof fn lemma_isqrt_exists(n: int)
    requires
        n >= 0,
    ensures
        is_isqrt(n, isqrt(n)),
    decreases n,
{
    if n == 0 {
        assert(is_isqrt(0, 0));
    } else {
        lemma_isqrt_exists(n - 1);
        let r = isqrt(n - 1);
        if (r + 1) * (r + 1) <= n {
            assert(is_isqrt(n, r + 1)) by (nonlinear_arith)
                requires
                    is_isqrt(n - 1, r),
                    (r + 1) * (r + 1) <= n,
            ;
        } else {
            assert(is_isqrt(n, r));
        }
    }
}

/// The rounded-down square root of `n` is unique.
pub proof fn lemma_isqrt_unique(n: int, r: int)
    requires
        is_isqrt(n, r),
    ensures
        r == isqrt(n),
{
    assert(is_isqrt(n, r) && is_isqrt(n, isqrt(n)) ==> r == isqrt(n)) by (nonlinear_arith);
    assert(n >= 0) by (nonlinear_arith)
        requires
            is_isqrt(n, r),
    ;
    lemma_isqrt_exists(n);
}

/// Dot product of two equally long, coordinate-bounded vectors, starting from
/// a prefix sum.
fn dot_product(a: &Vec<i64>, b: &Vec<i64>) -> (r: i64)
    requires
        a@.len() == b@.len(),
        valid_vector(a@),
        valid_vector(b@),
    ensures
        r == dot(ints(a@), ints(b@)),
{
    let sa = Ghost(ints(a@));
    let sb = Ghost(ints(b@));
    let n = a.len();
    let mut acc: i64 = 0;
    let mut i: usize = 0;
    proof {
        assert(sa@.take(0) =~= Seq::<int>::empty());
        assert(sb@.take(0) =~= Seq::<int>::empty());
    }
    while i < n
        invariant
            i <= n,
            n == a@.len(),
            n == b@.len(),
            valid_vector(a@),
            valid_vector(b@),
            sa@ == ints(a@),
            sb@ == ints(b@),
            acc == dot(sa@.take(i as int), sb@.take(i as int)),
            -(i as int) * MAX_COORD * MAX_COORD <= acc <= (i as int) * MAX_COORD * MAX_COORD,
        decreases n - i,
    {
        let x = a[i];
        let y = b[i];
        proof {
            lemma_dot_take_succ(sa@, sb@, i as int);
            assert(-MAX_COORD * MAX_COORD <= x * y <= MAX_COORD * MAX_COORD) by (nonlinear_arith)
                requires
                    -MAX_COORD <= x <= MAX_COORD,
                    -MAX_COORD <= y <= MAX_COORD,
            ;
            assert((i as int) * MAX_COORD * MAX_COORD + MAX_COORD * MAX_COORD == ((i + 1) as int)
                * MAX_COORD * MAX_COORD) by (nonlinear_arith);
            assert(((i + 1) as int) * MAX_COORD * MAX_COORD <= (n as int) * MAX_COORD * MAX_COORD)
                by (nonlinear_arith)
                requires
                    i + 1 <= n,
            ;
            assert((n as int) * MAX_COORD * MAX_COORD <= 65536int * 1000000 * 1000000)
                by (nonlinear_arith)
                requires
                    n <= 65536,
            ;
        }
        acc = acc + x * y;
        i = i + 1;
    }
    proof {
        assert(sa@.take(n as int) =~= sa@);
        assert(sb@.take(n as int) =~= sb@);
    }
    acc
}

/// Extending both prefixes by one coordinate adds that coordinate product to
/// the dot product.
proof fn lemma_dot_take_succ(a: Seq<int>, b: Seq<int>, i: int)
    requires
        0 <= i < a.len(),
        i < b.len(),
    ensures
        dot(a.take(i + 1), b.take(i + 1)) == dot(a.take(i), b.take(i)) + a[i] * b[i],
{
    assert(a.take(i + 1).drop_last() =~= a.take(i));
    assert(b.take(i + 1).drop_last() =~= b.take(i));
    assert(a.take(i + 1).last() == a[i]);
    assert(b.take(i + 1).last() == b[i]);
}

/// Integer square root, rounded down, by bisection.
fn isqrt_u128(n: u128) -> (r: u128)
    ensures
        is_isqrt(n as int, r as int),
{
    let mut lo: u128 = 0;
    let mut hi: u128 = 0x1_0000_0000_0000_0000;
    if n < hi {
        hi = n + 1;
    }
    proof {
        if n < 0x1_0000_0000_0000_0000 {
            assert((n as int) < ((n as int) + 1) * ((n as int) + 1)) by (nonlinear_arith)
                requires
                    n >= 0,
            ;
        } else {
            assert((n as int) < 0x1_0000_0000_0000_0000int * 0x1_0000_0000_0000_0000int)
                by (nonlinear_arith);
        }
    }
    while lo + 1 < hi
        invariant
            lo < hi,
            hi <= 0x1_0000_0000_0000_0000,
            (lo as int) * (lo as int) <= n as int,
            (n as int) < (hi as int) * (hi as int),
        decreases hi - lo,
    {
        let mid = lo + (hi - lo) / 2;
        proof {
            assert(mid < hi);
            assert((mid as int) * (mid as int) < 0x1_0000_0000_0000_0000int
                * 0x1_0000_0000_0000_0000int) by (nonlinear_arith)
                requires
                    0 <= mid < 0x1_0000_0000_0000_0000int,
            ;
        }
        if mid * mid <= n {
            lo = mid;
        } else {
            hi = mid;
        }
    }
    proof {
        assert(hi == lo + 1);
    }
    lo
}

/// Cosine similarity of two fixed-point vectors.
///
/// The result is exact with respect to `cosine`: the dot product over the
/// product of norms, in the fixed-point scale, truncated toward zero, and `0`
/// whenever either vector has zero norm.  The result always lies in
/// `[-SIMILARITY_SCALE, SIMILARITY_SCALE]`.
pub fn cosine_similarity(v1: &Vec<i64>, v2: &Vec<i64>) -> (r: i64)
    requires
        v1@.len() == v2@.len(),
        valid_vector(v1@),
        valid_vector(v2@),
    ensures
        r == cosine_of(v1@, v2@),
        -SIMILARITY_SCALE <= r <= SIMILARITY_SCALE,
        norm2(ints(v1@)) == 0 || norm2(ints(v2@)) == 0 ==> r == 0,
{
    let sa = Ghost(ints(v1@));
    let sb = Ghost(ints(v2@));
    let n1 = dot_product(v1, v1);
    let n2 = dot_product(v2, v2);
    proof {
        lemma_norm2_nonneg(sa@);
        lemma_norm2_nonneg(sb@);
    }
    if n1 == 0 || n2 == 0 {
        return 0;
    }
    let d = dot_product(v1, v2);
    proof {
        assert((n1 as int) * (n2 as int) < 0x8000_0000_0000_0000_0000_0000_0000_0000int)
            by (nonlinear_arith)
            requires
                0 < n1 < 0x8000_0000_0000_0000int,
                0 < n2 < 0x8000_0000_0000_0000int,
        ;
    }
    let prod: u128 = (n1 as u128) * (n2 as u128);
    proof {
        assert(prod >= 1) by (nonlinear_arith)
            requires
                prod == (n1 as int) * (n2 as int),
                n1 >= 1,
                n2 >= 1,
        ;
    }
    let np = isqrt_u128(prod);
    proof {
        lemma_isqrt_unique(prod as int, np as int);
        assert(np >= 1) by (nonlinear_arith)
            requires
                is_isqrt(prod as int, np as int),
                prod >= 1,
        ;
        lemma_cauchy_schwarz(sa@, sb@);
        assert(-(np as int) <= d as int <= np as int) by (nonlinear_arith)
            requires
                (d as int) * (d as int) <= prod as int,
                (prod as int) < ((np as int) + 1) * ((np as int) + 1),
                np >= 0,
        ;
    }
    let mag: u128 = if d >= 0 {
        d as u128
    } else {
        (-(d as i128)) as u128
    };
    let scaled: u128 = mag * (SIMILARITY_SCALE as u128);
    let q: u128 = scaled / np;
    proof {
        assert(scaled <= (np as int) * (SIMILARITY_SCALE as int)) by (nonlinear_arith)
            requires
                scaled == (mag as int) * (SIMILARITY_SCALE as int),
                mag <= np,
        ;
        assert(q <= SIMILARITY_SCALE) by {
            vstd::arithmetic::div_mod::lemma_div_is_ordered(
                scaled as int,
                (np as int) * (SIMILARITY_SCALE as int),
                np as int,
            );
            vstd::arithmetic::div_mod::lemma_div_multiples_vanish(
                SIMILARITY_SCALE as int,
                np as int,
            );
        }
    }
    let r: i64 = if d >= 0 {
        q as i64
    } else {
        -(q as i64)
    };
    r
}

/// Cosine similarity is symmetric in its two arguments.
pub proof fn lemma_cosine_symmetric(a: Seq<int>, b: Seq<int>)
    ensures
        cosine(a, b) == cosine(b, a),
{
    lemma_dot_symmetric(a, b);
    lemma_dot_symmetric(a, a);
    lemma_dot_symmetric(b, b);
    assert(norm2(a) * norm2(b) == norm2(b) * norm2(a)) by (nonlinear_arith);
}

/// Cosine similarity of a non-degenerate vector with itself is exactly `1.0`
/// in the fixed-point scale.
pub proof fn lemma_cosine_self(a: Seq<int>)
    requires
        norm2(a) != 0,
    ensures
        cosine(a, a) == SIMILARITY_SCALE,
{
    let n = norm2(a);
    lemma_norm2_nonneg(a);
    assert(is_isqrt(n * n, n)) by (nonlinear_arith)
        requires
            n > 0,
    ;
    lemma_isqrt_unique(n * n, n);
    assert(n * SIMILARITY_SCALE >= 0) by (nonlinear_arith)
        requires
            n > 0,
    ;
    assert(tdiv(n * SIMILARITY_SCALE, n) == SIMILARITY_SCALE) by {
        vstd::arithmetic::div_mod::lemma_div_multiples_vanish(SIMILARITY_SCALE as int, n);
    }
}

/// Cosine similarity against a zero-norm vector is `0`, not undefined.
pub proof fn lemma_cosine_zero(a: Seq<int>, b: Seq<int>)
    requires
        norm2(a) == 0 || norm2(b) == 0,
    ensures
        cosine(a, b) == 0,
{
}

/// A vector with a non-zero coordinate has a positive squared norm.
pub proof fn lemma_nonzero_vector_norm2(a: Seq<int>, i: int)
    requires
        0 <= i < a.len(),
        a[i] != 0,
    ensures
        norm2(a) > 0,
    decreases a.len(),
{
    lemma_norm2_nonneg(a.drop_last());
    if i == a.len() - 1 {
        assert(a.last() * a.last() > 0) by (nonlinear_arith)
            requires
                a.last() != 0,
        ;
    } else {
        lemma_nonzero_vector_norm2(a.drop_last(), i);
        assert(a.last() * a.last() >= 0) by (nonlinear_arith);
    }
}

/// The all-zero vector has squared norm `0`.
pub proof fn lemma_zero_vector_norm2(a: Seq<int>)
    requires
        forall|i: int| 0 <= i < a.len() ==> a[i] == 0,
    ensures
        norm2(a) == 0,
    decreases a.len(),
{
    if a.len() != 0 {
        lemma_zero_vector_norm2(a.drop_last());
    }
}

} // verus!
