//! What computed samples are worth, step by step.
//!
//! A sample is `about` a number if it is finite and off by no more than is said. The
//! lemmas below carry that through one operation each.

use vstd::prelude::*;

use crate::math::SampleMath;
use crate::rounding::{
    is_scale, lemma_near_is_off_by_little, lemma_product_size, near, rounds, size, Numbers,
};

verus! {

/// `s` is worth `x`, give or take `e`.
pub open spec fn about<S>(z: Numbers<S>, s: S, x: real, e: real) -> bool {
    &&& (z.finite)(s)
    &&& size((z.val)(s) - x) <= e
}

/// What rounding adds to a result of the given size.
pub open spec fn off(x: real) -> real {
    x / 1000000real + 1real / 1000000000real
}

/// Magnitudes are exact, and so is the second comparison.
pub open spec fn measures<S, M: SampleMath<S>>(m: &M, z: Numbers<S>) -> bool {
    &&& forall|a: S, r: S|
        #![trigger call_ensures(M::magnitude, (m, a), r)]
        call_ensures(M::magnitude, (m, a), r) && (z.finite)(a) ==> (z.finite)(r) && (z.val)(r)
            == size((z.val)(a))
    &&& forall|a: S, b: S, r: bool|
        #![trigger call_ensures(M::at_most, (m, a, b), r)]
        call_ensures(M::at_most, (m, a, b), r) && (z.finite)(a) && (z.finite)(b) ==> r == ((
        z.val)(a) <= (z.val)(b))
    &&& forall|a: S, r: usize|
        #![trigger call_ensures(M::floor_index, (m, a), r)]
        call_ensures(M::floor_index, (m, a), r) && (z.finite)(a) && 0real <= (z.val)(a)
            <= 1000000real ==> (r as int) as real <= (z.val)(a) < (r as int) as real + 1real
}

/// Whole constants are exact.
pub proof fn lemma_whole_about<S, M: SampleMath<S>>(m: &M, z: Numbers<S>, n: i32, r: S)
    requires
        rounds(m, z),
        -1000000 <= n <= 1000000,
        call_ensures(M::ratio, (m, n, 1u32), r),
    ensures
        (z.finite)(r),
        (z.val)(r) == (n as int) as real,
{
    reveal(rounds);
}

/// Counts are exact.
pub proof fn lemma_count_about<S, M: SampleMath<S>>(m: &M, z: Numbers<S>, n: usize, r: S)
    requires
        rounds(m, z),
        n <= 1000000,
        call_ensures(M::count, (m, n), r),
    ensures
        (z.finite)(r),
        (z.val)(r) == (n as int) as real,
{
    reveal(rounds);
}

/// Sums.
pub proof fn lemma_sum_about<S, M: SampleMath<S>>(
    m: &M,
    z: Numbers<S>,
    a: S,
    b: S,
    r: S,
    x: real,
    ea: real,
    y: real,
    eb: real,
)
    requires
        rounds(m, z),
        about(z, a, x, ea),
        about(z, b, y, eb),
        size(x + y) + ea + eb <= 1000000real,
        call_ensures(M::sum, (m, a, b), r),
    ensures
        about(z, r, x + y, ea + eb + off(size(x + y) + ea + eb)),
{
    assert(near(z, (z.val)(a) + (z.val)(b), r) && is_scale(z)) by {
        reveal(rounds);
    }
    lemma_near_is_off_by_little(z, (z.val)(a) + (z.val)(b), r);
}

/// Differences.
pub proof fn lemma_diff_about<S, M: SampleMath<S>>(
    m: &M,
    z: Numbers<S>,
    a: S,
    b: S,
    r: S,
    x: real,
    ea: real,
    y: real,
    eb: real,
)
    requires
        rounds(m, z),
        about(z, a, x, ea),
        about(z, b, y, eb),
        size(x - y) + ea + eb <= 1000000real,
        call_ensures(M::diff, (m, a, b), r),
    ensures
        about(z, r, x - y, ea + eb + off(size(x - y) + ea + eb)),
{
    assert(near(z, (z.val)(a) - (z.val)(b), r) && is_scale(z)) by {
        reveal(rounds);
    }
    lemma_near_is_off_by_little(z, (z.val)(a) - (z.val)(b), r);
}

/// How far a product of two factors of the given sizes is off.
pub open spec fn off_product(x: real, ea: real, y: real, eb: real) -> real {
    ea * size(y) + size(x) * eb + ea * eb
}

/// The exact product of two samples.
pub proof fn lemma_product_about(a: real, b: real, x: real, ea: real, y: real, eb: real)
    requires
        size(a - x) <= ea,
        size(b - y) <= eb,
    ensures
        size(a * b - x * y) <= off_product(x, ea, y, eb),
        size(x * y) == size(x) * size(y),
        size(a * b) == size(a) * size(b),
{
    lemma_product_size(a - x, b - y, ea, eb);
    lemma_product_size(a - x, y, ea, size(y));
    lemma_product_size(x, b - y, size(x), eb);
    lemma_product_size(x, y, size(x), size(y));
    lemma_product_size(a, b, size(a), size(b));
    assert(a * b - x * y == (a - x) * (b - y) + (a - x) * y + x * (b - y)) by (nonlinear_arith);
}

/// Products.
pub proof fn lemma_prod_about<S, M: SampleMath<S>>(
    m: &M,
    z: Numbers<S>,
    a: S,
    b: S,
    r: S,
    x: real,
    ea: real,
    y: real,
    eb: real,
    e: real,
)
    requires
        rounds(m, z),
        about(z, a, x, ea),
        about(z, b, y, eb),
        off_product(x, ea, y, eb) <= e,
        size(x * y) + e <= 1000000real,
        call_ensures(M::prod, (m, a, b), r),
    ensures
        about(z, r, x * y, e + off(size(x * y) + e)),
{
    lemma_product_about((z.val)(a), (z.val)(b), x, ea, y, eb);
    let ab = (z.val)(a) * (z.val)(b);
    assert(size(ab) <= 1000000real);
    assert(near(z, ab, r) && is_scale(z)) by {
        reveal(rounds);
    }
    lemma_near_is_off_by_little(z, (z.val)(a) * (z.val)(b), r);
}

/// Sums with a product.
pub proof fn lemma_mul_add_about<S, M: SampleMath<S>>(
    m: &M,
    z: Numbers<S>,
    acc: S,
    a: S,
    b: S,
    r: S,
    w: real,
    ew: real,
    x: real,
    ea: real,
    y: real,
    eb: real,
    e: real,
)
    requires
        rounds(m, z),
        about(z, acc, w, ew),
        about(z, a, x, ea),
        about(z, b, y, eb),
        off_product(x, ea, y, eb) <= e,
        size(x * y) + e <= 100000real,
        size(w) + ew <= 100000real,
        call_ensures(M::mul_add, (m, acc, a, b), r),
    ensures
        about(
            z,
            r,
            w + x * y,
            ew + e + 3real * off(size(x * y) + e) + off(size(w) + ew),
        ),
{
    lemma_product_about((z.val)(a), (z.val)(b), x, ea, y, eb);
    let ab = (z.val)(a) * (z.val)(b);
    assert(size(ab) <= 100000real);
    assert(is_scale(z) && exists|p: S| #[trigger]
        near(z, ab, p) && near(z, (z.val)(acc) + (z.val)(p), r)) by {
        reveal(rounds);
    }
    let p = choose|p: S| #[trigger] near(z, ab, p) && near(z, (z.val)(acc) + (z.val)(p), r);
    lemma_near_is_off_by_little(z, ab, p);
    lemma_near_is_off_by_little(z, (z.val)(acc) + (z.val)(p), r);
}

/// The quotient of two numbers.
pub proof fn lemma_quotient(x: real, d: real) -> (q: real)
    requires
        d > 0real,
    ensures
        q == x / d,
        q * d == x,
        size(q) * d == size(x),
{
    let q = x / d;
    assert(q * d == x) by (nonlinear_arith)
        requires
            d > 0real,
            q == x / d,
    ;
    lemma_product_size(q, d, size(q), d);
    q
}

/// What is not above a product is not above the factor, for the other one above zero.
pub proof fn lemma_cancel(a: real, b: real, d: real)
    requires
        d > 0real,
        a * d <= b * d,
    ensures
        a <= b,
{
    assert(a <= b) by (nonlinear_arith)
        requires
            d > 0real,
            a * d <= b * d,
    ;
}

/// A quotient is off by little.
proof fn lemma_quot_near<S, M: SampleMath<S>>(
    m: &M,
    z: Numbers<S>,
    a: S,
    b: S,
    r: S,
    q: real,
)
    requires
        rounds(m, z),
        (z.finite)(a),
        (z.finite)(b),
        (z.val)(b) > 0real,
        q == (z.val)(a) / (z.val)(b),
        size(q) <= 1000000real,
        call_ensures(M::quot, (m, a, b), r),
    ensures
        about(z, r, q, off(size(q))),
{
    assert(near(z, q, r) && is_scale(z)) by {
        reveal(rounds);
    }
    lemma_near_is_off_by_little(z, q, r);
}

/// Quotients by a number above zero, seen from what they are the quotient of.
pub proof fn lemma_quot_times<S, M: SampleMath<S>>(
    m: &M,
    z: Numbers<S>,
    a: S,
    b: S,
    r: S,
    x: real,
    ea: real,
)
    requires
        rounds(m, z),
        about(z, a, x, ea),
        (z.finite)(b),
        (z.val)(b) > 0real,
        size(x) + ea <= 1000000real * (z.val)(b),
        call_ensures(M::quot, (m, a, b), r),
    ensures
        (z.finite)(r),
        size((z.val)(r) * (z.val)(b) - x) <= ea + (size(x) + ea) / 1000000real + (z.val)(b)
            / 1000000000real,
{
    let v = (z.val)(a);
    let d = (z.val)(b);
    let q = lemma_quotient(v, d);
    let sq = size(q);
    lemma_cancel(sq, 1000000real, d);
    lemma_quot_near(m, z, a, b, r, q);
    let w = (z.val)(r) - q;
    let e = off(sq);
    lemma_product_size(w, d, e, d);
    assert(e * d == sq * d / 1000000real + d / 1000000000real) by (nonlinear_arith)
        requires
            e == sq / 1000000real + 1real / 1000000000real,
    ;
    let rv = (z.val)(r);
    assert(w * d == rv * d - q * d) by (nonlinear_arith)
        requires
            w == rv - q,
    ;
}

/// Quotients by a number of at least 1, as numbers.
pub proof fn lemma_quot_about<S, M: SampleMath<S>>(
    m: &M,
    z: Numbers<S>,
    a: S,
    b: S,
    r: S,
    x: real,
    ea: real,
)
    requires
        rounds(m, z),
        about(z, a, x, ea),
        (z.finite)(b),
        (z.val)(b) >= 1real,
        size(x) + ea <= 1000000real,
        call_ensures(M::quot, (m, a, b), r),
    ensures
        about(z, r, x / (z.val)(b), ea + off(size(x) + ea)),
        size(x / (z.val)(b)) <= size(x),
{
    let d = (z.val)(b);
    lemma_quot_times(m, z, a, b, r, x, ea);
    let q = lemma_quotient(x, d);
    let rv = (z.val)(r);
    let g = rv - q;
    assert(g * d == rv * d - q * d) by (nonlinear_arith)
        requires
            g == rv - q,
    ;
    lemma_product_size(g, d, size(g), d);
    let sg = size(g);
    let sq = size(q);
    let w = ea + (size(x) + ea) / 1000000real;
    assert(sg <= w + 1real / 1000000000real) by (nonlinear_arith)
        requires
            sg * d <= w + d / 1000000000real,
            d >= 1real,
            w >= 0real,
    ;
    assert(sq <= size(x)) by (nonlinear_arith)
        requires
            sq * d == size(x),
            d >= 1real,
            sq >= 0real,
    ;
}

} // verus!
