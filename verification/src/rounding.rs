//! Arithmetic that rounds.
//!
//! What is known of computed samples as numbers, where each operation gives the
//! exact result up to a small error. Floating point with rounding to nearest is
//! such an arithmetic.

use vstd::prelude::*;

use crate::math::{
    clamped, clamped_by, unwound, unwound_by, wrapped, wrapped_by, SampleMath, MAX_TURNS,
};

verus! {

/// What samples are worth.
///
/// A sample that is `finite` is worth the number `val` of it. Results are off by at
/// most `unit` of their size, and `tiny` more; they are finite where they are not
/// above `limit`. There is a sample for the opposite of each, `neg`, and for each
/// `whole` number up to a million.
#[verifier::reject_recursive_types(S)]
pub struct Numbers<S> {
    pub val: spec_fn(S) -> real,
    pub finite: spec_fn(S) -> bool,
    pub neg: spec_fn(S) -> S,
    pub whole: spec_fn(int) -> S,
    pub unit: real,
    pub tiny: real,
    pub limit: real,
}

/// The size of a number.
pub open spec fn size(x: real) -> real {
    if x < 0real {
        -x
    } else {
        x
    }
}

/// `r` is worth `exact`, rounded: it is off by little, and it lies past no sample
/// that `exact` does not lie past.
#[verifier::opaque]
pub open spec fn near<S>(z: Numbers<S>, exact: real, r: S) -> bool {
    &&& (z.finite)(r)
    &&& size((z.val)(r) - exact) <= z.unit * size(exact) + z.tiny
    &&& forall|c: S| #[trigger]
        (z.finite)(c) ==> {
            &&& exact <= (z.val)(c) ==> (z.val)(r) <= (z.val)(c)
            &&& (z.val)(c) <= exact ==> (z.val)(c) <= (z.val)(r)
        }
}

/// The samples have the worth they should have, and errors are small.
pub open spec fn is_scale<S>(z: Numbers<S>) -> bool {
    &&& 0real <= z.unit <= 1real / 16000000real
    &&& 0real <= z.tiny <= 1real / 1000000000real
    &&& 1000000real <= z.limit
    &&& forall|a: S|
        #![trigger (z.neg)(a)]
        (z.finite)(a) ==> (z.finite)((z.neg)(a)) && (z.val)((z.neg)(a)) == -(z.val)(a)
    &&& forall|n: int|
        #![trigger (z.whole)(n)]
        -1000000 <= n <= 1000000 ==> (z.finite)((z.whole)(n)) && (z.val)((z.whole)(n)) == n as real
}

/// Every operation rounds its exact result. Whole numbers, opposites and
/// comparisons are exact. A turn is a little more than 6.28, sine and cosine are at
/// most 1 in size.
#[verifier::opaque]
pub open spec fn rounds<S, M: SampleMath<S>>(m: &M, z: Numbers<S>) -> bool {
    &&& is_scale(z)
    &&& forall|a: S, b: S, r: S|
        #![trigger call_ensures(M::sum, (m, a, b), r)]
        call_ensures(M::sum, (m, a, b), r) && (z.finite)(a) && (z.finite)(b) && size(
            (z.val)(a) + (z.val)(b),
        ) <= z.limit ==> near(z, (z.val)(a) + (z.val)(b), r)
    &&& forall|a: S, b: S, r: S|
        #![trigger call_ensures(M::diff, (m, a, b), r)]
        call_ensures(M::diff, (m, a, b), r) && (z.finite)(a) && (z.finite)(b) && size(
            (z.val)(a) - (z.val)(b),
        ) <= z.limit ==> near(z, (z.val)(a) - (z.val)(b), r)
    &&& forall|a: S, b: S, r: S|
        #![trigger call_ensures(M::prod, (m, a, b), r)]
        call_ensures(M::prod, (m, a, b), r) && (z.finite)(a) && (z.finite)(b) && size(
            (z.val)(a) * (z.val)(b),
        ) <= z.limit ==> near(z, (z.val)(a) * (z.val)(b), r)
    &&& forall|a: S, b: S, r: S|
        #![trigger call_ensures(M::quot, (m, a, b), r)]
        call_ensures(M::quot, (m, a, b), r) && (z.finite)(a) && (z.finite)(b) && (z.val)(b)
            != 0real && size((z.val)(a) / (z.val)(b)) <= z.limit ==> near(
            z,
            (z.val)(a) / (z.val)(b),
            r,
        )
    &&& forall|acc: S, a: S, b: S, r: S|
        #![trigger call_ensures(M::mul_add, (m, acc, a, b), r)]
        call_ensures(M::mul_add, (m, acc, a, b), r) && (z.finite)(acc) && (z.finite)(a)
            && (z.finite)(b) && size((z.val)(a) * (z.val)(b)) <= z.limit / 4real && size(
            (z.val)(acc),
        ) <= z.limit / 4real ==> exists|p: S| #[trigger]
            near(z, (z.val)(a) * (z.val)(b), p) && near(z, (z.val)(acc) + (z.val)(p), r)
    &&& forall|n: i32, d: u32, r: S|
        #![trigger call_ensures(M::ratio, (m, n, d), r)]
        call_ensures(M::ratio, (m, n, d), r) && -1000000 <= n <= 1000000 && 1 <= d <= 1000000
            ==> near(z, (n as int) as real / (d as int) as real, r)
    &&& forall|n: i32, r: S|
        #![trigger call_ensures(M::ratio, (m, n, 1u32), r)]
        call_ensures(M::ratio, (m, n, 1u32), r) && -1000000 <= n <= 1000000 ==> (z.finite)(r)
            && (z.val)(r) == (n as int) as real
    &&& forall|n: usize, r: S|
        #![trigger call_ensures(M::count, (m, n), r)]
        call_ensures(M::count, (m, n), r) && n <= 1000000 ==> (z.finite)(r) && (z.val)(r) == (
        n as int) as real
    &&& forall|a: S, r: S|
        #![trigger call_ensures(M::opposite, (m, a), r)]
        call_ensures(M::opposite, (m, a), r) && (z.finite)(a) ==> (z.finite)(r) && (z.val)(r)
            == -(z.val)(a)
    &&& forall|a: S, b: S, r: bool|
        #![trigger call_ensures(M::less, (m, a, b), r)]
        call_ensures(M::less, (m, a, b), r) && (z.finite)(a) && (z.finite)(b) ==> r == ((z.val)(
            a,
        ) < (z.val)(b))
    &&& forall|r: S|
        #![trigger call_ensures(M::full_turn, (m,), r)]
        call_ensures(M::full_turn, (m,), r) ==> (z.finite)(r) && 628real / 100real <= (z.val)(r)
            <= 629real / 100real
    &&& forall|r: S, s: S|
        #![trigger call_ensures(M::half_turn, (m,), r), call_ensures(M::full_turn, (m,), s)]
        call_ensures(M::half_turn, (m,), r) && call_ensures(M::full_turn, (m,), s) ==> (z.val)(r)
            * 2real == (z.val)(s)
    &&& forall|r: S|
        #![trigger call_ensures(M::half_turn, (m,), r)]
        call_ensures(M::half_turn, (m,), r) ==> (z.finite)(r) && 314real / 100real <= (z.val)(r)
            <= 629real / 200real
    &&& forall|a: S, r: S|
        #![trigger call_ensures(M::cosine, (m, a), r)]
        call_ensures(M::cosine, (m, a), r) && (z.finite)(a) ==> (z.finite)(r) && size((z.val)(r))
            <= 1real
    &&& forall|a: S, r: (S, S)|
        #![trigger call_ensures(M::sin_cos, (m, a), r)]
        call_ensures(M::sin_cos, (m, a), r) && (z.finite)(a) ==> {
            &&& (z.finite)(r.0)
            &&& (z.finite)(r.1)
            &&& size((z.val)(r.0)) <= 1real
            &&& size((z.val)(r.1)) <= 1real
        }
}

/// How far a rounded result may be off.
pub proof fn lemma_near_is_off_by_little<S>(z: Numbers<S>, exact: real, r: S)
    requires
        is_scale(z),
        near(z, exact, r),
    ensures
        (z.finite)(r),
        size((z.val)(r) - exact) <= z.unit * size(exact) + z.tiny,
        size((z.val)(r) - exact) <= size(exact) / 1000000real + 1real / 1000000000real,
{
    reveal(near);
    let u = z.unit;
    let e = size(exact);
    assert(u * e <= e / 1000000real) by (nonlinear_arith)
        requires
            0real <= e,
            0real <= u <= 1real / 1000000real,
    ;
}

/// A rounded result does not lie past a sample that the exact one does not lie past.
pub proof fn lemma_near_stays_on_its_side<S>(z: Numbers<S>, exact: real, r: S, c: S)
    requires
        near(z, exact, r),
        (z.finite)(c),
    ensures
        (z.finite)(r),
        exact <= (z.val)(c) ==> (z.val)(r) <= (z.val)(c),
        (z.val)(c) <= exact ==> (z.val)(c) <= (z.val)(r),
{
    reveal(near);
}

/// A product is as large as the sizes of its factors allow.
pub proof fn lemma_product_size(a: real, b: real, cap_a: real, cap_b: real)
    requires
        size(a) <= cap_a,
        size(b) <= cap_b,
    ensures
        size(a * b) <= cap_a * cap_b,
        size(a * b) == size(a) * size(b),
{
    assert(size(a) * size(b) <= cap_a * cap_b) by (nonlinear_arith)
        requires
            0real <= size(a) <= cap_a,
            0real <= size(b) <= cap_b,
    ;
    if a < 0real {
        if b < 0real {
            assert((-a) * (-b) == a * b) by (nonlinear_arith);
            assert(a * b >= 0real) by (nonlinear_arith)
                requires
                    a < 0real,
                    b < 0real,
            ;
        } else {
            assert((-a) * b == -(a * b)) by (nonlinear_arith);
            assert(a * b <= 0real) by (nonlinear_arith)
                requires
                    a < 0real,
                    b >= 0real,
            ;
        }
    } else {
        if b < 0real {
            assert(a * (-b) == -(a * b)) by (nonlinear_arith);
            assert(a * b <= 0real) by (nonlinear_arith)
                requires
                    a >= 0real,
                    b < 0real,
            ;
        } else {
            assert(a * b >= 0real) by (nonlinear_arith)
                requires
                    a >= 0real,
                    b >= 0real,
            ;
        }
    }
}

/// A product that is added is off by little.
pub proof fn lemma_mul_add_size<S, M: SampleMath<S>>(
    m: &M,
    z: Numbers<S>,
    acc: S,
    a: S,
    b: S,
    r: S,
    cap_acc: real,
    cap_ab: real,
)
    requires
        rounds(m, z),
        (z.finite)(acc),
        (z.finite)(a),
        (z.finite)(b),
        size((z.val)(acc)) <= cap_acc <= 100000real,
        size((z.val)(a) * (z.val)(b)) <= cap_ab <= 100000real,
        call_ensures(M::mul_add, (m, acc, a, b), r),
    ensures
        (z.finite)(r),
        size((z.val)(r) - ((z.val)(acc) + (z.val)(a) * (z.val)(b))) <= (cap_acc + 3real * cap_ab)
            / 1000000real + 1real / 1000000real,
{
    reveal(rounds);
    let ab = (z.val)(a) * (z.val)(b);
    let p = choose|p: S| #[trigger] near(z, ab, p) && near(z, (z.val)(acc) + (z.val)(p), r);
    lemma_near_is_off_by_little(z, ab, p);
    lemma_near_is_off_by_little(z, (z.val)(acc) + (z.val)(p), r);
}

/// A product is off by little.
pub proof fn lemma_prod_size<S, M: SampleMath<S>>(
    m: &M,
    z: Numbers<S>,
    a: S,
    b: S,
    r: S,
    cap_a: real,
    cap_b: real,
    cap: real,
)
    requires
        rounds(m, z),
        (z.finite)(a),
        (z.finite)(b),
        size((z.val)(a)) <= cap_a,
        size((z.val)(b)) <= cap_b,
        cap_a * cap_b <= cap <= 100000real,
        call_ensures(M::prod, (m, a, b), r),
    ensures
        (z.finite)(r),
        size((z.val)(a) * (z.val)(b)) <= cap,
        size((z.val)(r) - (z.val)(a) * (z.val)(b)) <= cap / 1000000real + 1real / 1000000000real,
        size((z.val)(r)) <= cap + cap / 1000000real + 1real / 1000000000real,
{
    reveal(rounds);
    lemma_product_size((z.val)(a), (z.val)(b), cap_a, cap_b);
    lemma_near_is_off_by_little(z, (z.val)(a) * (z.val)(b), r);
}

/// What is held to a range is finite and worth what is held to the range.
pub proof fn lemma_clamped_value<S, M: SampleMath<S>>(
    m: &M,
    z: Numbers<S>,
    x: S,
    lo: S,
    hi: S,
    r: S,
)
    requires
        rounds(m, z),
        (z.finite)(x),
        (z.finite)(lo),
        (z.finite)(hi),
        (z.val)(lo) <= (z.val)(hi),
        clamped(m, x, lo, hi, r),
    ensures
        (z.finite)(r),
        (z.val)(r) == if (z.val)(x) < (z.val)(lo) {
            (z.val)(lo)
        } else if (z.val)(hi) < (z.val)(x) {
            (z.val)(hi)
        } else {
            (z.val)(x)
        },
{
    reveal(rounds);
    let (b, a) = choose|b: bool, a: bool| #[trigger] clamped_by(m, x, lo, hi, b, a, r);
    assert(clamped_by(m, x, lo, hi, b, a, r));
}

/// A sample that can be compared: it is finite, or it lies past every finite sample
/// on one side. Infinities can be compared, what is no number cannot.
pub open spec fn is_ordered<S, M: SampleMath<S>>(m: &M, z: Numbers<S>, x: S) -> bool {
    ||| (z.finite)(x)
    ||| lies_below(m, z, x)
    ||| lies_above(m, z, x)
}

/// `x` lies below every finite sample.
pub open spec fn lies_below<S, M: SampleMath<S>>(m: &M, z: Numbers<S>, x: S) -> bool {
    forall|c: S, b: bool|
        #![trigger call_ensures(M::less, (m, x, c), b)]
        (z.finite)(c) && call_ensures(M::less, (m, x, c), b) ==> b
}

/// `x` lies above every finite sample.
pub open spec fn lies_above<S, M: SampleMath<S>>(m: &M, z: Numbers<S>, x: S) -> bool {
    &&& forall|c: S, b: bool|
        #![trigger call_ensures(M::less, (m, c, x), b)]
        (z.finite)(c) && call_ensures(M::less, (m, c, x), b) ==> b
    &&& forall|c: S, b: bool|
        #![trigger call_ensures(M::less, (m, x, c), b)]
        (z.finite)(c) && call_ensures(M::less, (m, x, c), b) ==> !b
}

/// What is held to a range lies in it, wherever it came from.
pub proof fn lemma_clamped_lies_within<S, M: SampleMath<S>>(
    m: &M,
    z: Numbers<S>,
    x: S,
    lo: S,
    hi: S,
    r: S,
)
    requires
        rounds(m, z),
        is_ordered(m, z, x),
        (z.finite)(lo),
        (z.finite)(hi),
        (z.val)(lo) <= (z.val)(hi),
        clamped(m, x, lo, hi, r),
    ensures
        (z.finite)(r),
        (z.val)(lo) <= (z.val)(r) <= (z.val)(hi),
{
    if (z.finite)(x) {
        lemma_clamped_value(m, z, x, lo, hi, r);
    } else {
        reveal(rounds);
        let (b, a) = choose|b: bool, a: bool| #[trigger] clamped_by(m, x, lo, hi, b, a, r);
        assert(clamped_by(m, x, lo, hi, b, a, r));
    }
}

// ------------------------------------------------------------------- wrapping

/// `bound` is a whole turn or half of one, and `turn` is a whole one.
pub open spec fn turn_and_bound<S, M: SampleMath<S>>(m: &M, turn: S, bound: S) -> bool {
    &&& call_ensures(M::full_turn, (m,), turn)
    &&& bound == turn || call_ensures(M::half_turn, (m,), bound)
}

/// There is one turn.
pub open spec fn one_turn<S, M: SampleMath<S>>(m: &M) -> bool {
    forall|r: S, s: S|
        #![trigger call_ensures(M::full_turn, (m,), r), call_ensures(M::full_turn, (m,), s)]
        call_ensures(M::full_turn, (m,), r) && call_ensures(M::full_turn, (m,), s) ==> r == s
}

/// How far one step of unwinding may be off, for angles up to a hundred thousand.
pub open spec fn slip<S>(z: Numbers<S>) -> real {
    z.unit * 100000real + z.tiny
}

/// How far one step of unwinding may be off, for angles up to `cap`.
pub open spec fn slip_at<S>(z: Numbers<S>, cap: real) -> real {
    z.unit * cap + z.tiny
}

/// One step of unwinding an angle that is not below `floor`.
proof fn lemma_one_turn_less<S, M: SampleMath<S>>(
    m: &M,
    z: Numbers<S>,
    turn: S,
    bound: S,
    floor: S,
    angle: S,
    next: S,
    cap: real,
)
    requires
        rounds(m, z),
        one_turn::<S, M>(m),
        turn_and_bound(m, turn, bound),
        (z.finite)(floor),
        -(z.val)(bound) <= (z.val)(floor) <= (z.val)(bound) - (z.val)(turn),
        (z.finite)(angle),
        (z.val)(floor) <= (z.val)(angle) <= cap,
        7real <= cap <= 100000real,
        unwound(m, angle, bound, Some(next)),
    ensures
        (z.val)(angle) > (z.val)(bound),
        (z.finite)(next),
        (z.val)(floor) <= (z.val)(next) <= (z.val)(angle) - 6real,
        size((z.val)(next) - ((z.val)(angle) - (z.val)(turn))) <= slip_at(z, cap),
{
    reveal(rounds);
    let (t, a, o, b) = choose|t: S, a: bool, o: S, b: bool| #[trigger]
        unwound_by(m, angle, bound, t, a, o, b, Some(next));
    assert(t == turn);
    assert((z.val)(o) == -(z.val)(bound));
    assert(!b);
    assert(a);
    let exact = (z.val)(angle) - (z.val)(turn);
    lemma_near_is_off_by_little(z, exact, next);
    lemma_near_stays_on_its_side(z, exact, next, floor);
    let u = z.unit;
    let e = size(exact);
    assert(u * e <= u * cap) by (nonlinear_arith)
        requires
            0real <= u,
            e <= cap,
    ;
}

/// One step of unwinding an angle that is not above `roof`.
proof fn lemma_one_turn_more<S, M: SampleMath<S>>(
    m: &M,
    z: Numbers<S>,
    turn: S,
    bound: S,
    roof: S,
    angle: S,
    next: S,
    cap: real,
)
    requires
        rounds(m, z),
        one_turn::<S, M>(m),
        turn_and_bound(m, turn, bound),
        (z.finite)(roof),
        (z.val)(turn) - (z.val)(bound) <= (z.val)(roof) <= (z.val)(bound),
        (z.finite)(angle),
        7real <= cap <= 100000real,
        -cap <= (z.val)(angle) <= (z.val)(roof),
        unwound(m, angle, bound, Some(next)),
    ensures
        (z.val)(angle) < -(z.val)(bound),
        (z.finite)(next),
        (z.val)(angle) + 6real <= (z.val)(next) <= (z.val)(roof),
        size((z.val)(next) - ((z.val)(angle) + (z.val)(turn))) <= slip_at(z, cap),
{
    reveal(rounds);
    let (t, a, o, b) = choose|t: S, a: bool, o: S, b: bool| #[trigger]
        unwound_by(m, angle, bound, t, a, o, b, Some(next));
    assert(t == turn);
    assert((z.val)(o) == -(z.val)(bound));
    assert(!a);
    assert(b);
    let exact = (z.val)(angle) + (z.val)(turn);
    lemma_near_is_off_by_little(z, exact, next);
    lemma_near_stays_on_its_side(z, exact, next, roof);
    let u = z.unit;
    let e = size(exact);
    assert(u * e <= u * cap) by (nonlinear_arith)
        requires
            0real <= u,
            e <= cap,
    ;
}

/// Unwinding from above only ever takes turns off.
proof fn lemma_chain_falls<S, M: SampleMath<S>>(
    m: &M,
    z: Numbers<S>,
    turn: S,
    bound: S,
    floor: S,
    angle: S,
    chain: Seq<S>,
    r: S,
    k: int,
    cap: real,
)
    requires
        rounds(m, z),
        one_turn::<S, M>(m),
        turn_and_bound(m, turn, bound),
        (z.finite)(floor),
        -(z.val)(bound) <= (z.val)(floor) <= (z.val)(bound) - (z.val)(turn),
        (z.finite)(angle),
        (z.val)(floor) <= (z.val)(angle) <= cap,
        7real <= cap <= 100000real,
        wrapped_by(m, angle, bound, chain, r),
        0 <= k < chain.len(),
    ensures
        (z.finite)(chain[k]),
        (z.val)(floor) <= (z.val)(chain[k]) <= (z.val)(angle) - 6real * (k as real),
        size((z.val)(chain[k]) - ((z.val)(angle) - (k as real) * (z.val)(turn))) <= (k as real)
            * slip_at(z, cap),
    decreases k,
{
    if k > 0 {
        lemma_chain_falls(m, z, turn, bound, floor, angle, chain, r, k - 1, cap);
        assert(unwound(m, chain[k - 1], bound, Some(chain[k - 1 + 1])));
        lemma_one_turn_less(m, z, turn, bound, floor, chain[k - 1], chain[k], cap);
        let j = (k - 1) as real;
        assert(k as real == j + 1real);
        let t = (z.val)(turn);
        let s = slip_at(z, cap);
        assert((j + 1real) * t == j * t + t) by (nonlinear_arith);
        assert((j + 1real) * s == j * s + s) by (nonlinear_arith);
    } else {
        let t = (z.val)(turn);
        let s = slip_at(z, cap);
        assert((0 as real) * t == 0real) by (nonlinear_arith);
        assert((0 as real) * s == 0real) by (nonlinear_arith);
    }
}

/// Unwinding from below only ever adds turns.
proof fn lemma_chain_rises<S, M: SampleMath<S>>(
    m: &M,
    z: Numbers<S>,
    turn: S,
    bound: S,
    roof: S,
    angle: S,
    chain: Seq<S>,
    r: S,
    k: int,
    cap: real,
)
    requires
        rounds(m, z),
        one_turn::<S, M>(m),
        turn_and_bound(m, turn, bound),
        (z.finite)(roof),
        (z.val)(turn) - (z.val)(bound) <= (z.val)(roof) <= (z.val)(bound),
        (z.finite)(angle),
        7real <= cap <= 100000real,
        -cap <= (z.val)(angle) <= (z.val)(roof),
        wrapped_by(m, angle, bound, chain, r),
        0 <= k < chain.len(),
    ensures
        (z.finite)(chain[k]),
        (z.val)(angle) + 6real * (k as real) <= (z.val)(chain[k]) <= (z.val)(roof),
        size((z.val)(chain[k]) - ((z.val)(angle) + (k as real) * (z.val)(turn))) <= (k as real)
            * slip_at(z, cap),
    decreases k,
{
    if k > 0 {
        lemma_chain_rises(m, z, turn, bound, roof, angle, chain, r, k - 1, cap);
        assert(unwound(m, chain[k - 1], bound, Some(chain[k - 1 + 1])));
        lemma_one_turn_more(m, z, turn, bound, roof, chain[k - 1], chain[k], cap);
        let j = (k - 1) as real;
        assert(k as real == j + 1real);
        let t = (z.val)(turn);
        let s = slip_at(z, cap);
        assert((j + 1real) * t == j * t + t) by (nonlinear_arith);
        assert((j + 1real) * s == j * s + s) by (nonlinear_arith);
    } else {
        let t = (z.val)(turn);
        let s = slip_at(z, cap);
        assert((0 as real) * t == 0real) by (nonlinear_arith);
        assert((0 as real) * s == 0real) by (nonlinear_arith);
    }
}

/// `r` is `n` turns below `angle`, up to the slip of `n` steps.
pub open spec fn turns_apart<S>(z: Numbers<S>, turn: S, angle: S, r: S, n: int) -> bool {
    size((z.val)(r) - ((z.val)(angle) - (n as real) * (z.val)(turn))) <= size(n as real) * slip(z)
}

/// Wrapping an angle of up to `cap` takes as many turns off as fit, each with the
/// slip of an angle of that size.
pub proof fn law_wrapping_takes_whole_turns<S, M: SampleMath<S>>(
    m: &M,
    z: Numbers<S>,
    turn: S,
    bound: S,
    angle: S,
    r: S,
    cap: real,
) -> (n: int)
    requires
        rounds(m, z),
        one_turn::<S, M>(m),
        turn_and_bound(m, turn, bound),
        (z.finite)(angle),
        size((z.val)(angle)) <= cap,
        7real <= cap <= 100000real,
        wrapped(m, angle, bound, r),
    ensures
        (z.finite)(r),
        size((z.val)(r)) <= (z.val)(bound),
        unwound(m, r, bound, None),
        size(n as real) <= cap / 6real + 1real,
        size((z.val)(r) - ((z.val)(angle) - (n as real) * (z.val)(turn))) <= size(n as real)
            * slip_at(z, cap),
        bound == turn && (z.val)(angle) >= 0real ==> (z.val)(r) >= 0real,
        bound == turn && (z.val)(angle) <= 0real ==> (z.val)(r) <= 0real,
{
    reveal(rounds);
    reveal(wrapped);
    let chain = choose|chain: Seq<S>| #[trigger] wrapped_by(m, angle, bound, chain, r);
    let k = chain.len() - 1;
    let zero = (z.whole)(0);
    assert((z.finite)(zero) && (z.val)(zero) == 0real);
    let under = (z.neg)(bound);
    assert((z.finite)(under) && (z.val)(under) == -(z.val)(bound));
    if (z.val)(angle) >= 0real {
        let floor = if bound == turn {
            zero
        } else {
            under
        };
        lemma_chain_falls(m, z, turn, bound, floor, angle, chain, r, k, cap);
        if k > 0 {
            lemma_chain_falls(m, z, turn, bound, floor, angle, chain, r, k - 1, cap);
            assert(unwound(m, chain[k - 1], bound, Some(chain[k - 1 + 1])));
            lemma_one_turn_less(m, z, turn, bound, floor, chain[k - 1], chain[k], cap);
            assert(6real * ((k - 1) as real) <= cap);
            assert(k - 1 <= 100000);
        }
        assert(chain.len() <= MAX_TURNS);
        lemma_settled(m, z, bound, r);
        k
    } else {
        let roof = if bound == turn {
            zero
        } else {
            bound
        };
        lemma_chain_rises(m, z, turn, bound, roof, angle, chain, r, k, cap);
        if k > 0 {
            lemma_chain_rises(m, z, turn, bound, roof, angle, chain, r, k - 1, cap);
            assert(unwound(m, chain[k - 1], bound, Some(chain[k - 1 + 1])));
            lemma_one_turn_more(m, z, turn, bound, roof, chain[k - 1], chain[k], cap);
            assert(6real * ((k - 1) as real) <= cap);
            assert(k - 1 <= 100000);
        }
        assert(chain.len() <= MAX_TURNS);
        lemma_settled(m, z, bound, r);
        let t = (z.val)(turn);
        let kr = k as real;
        assert((-k) as real == -kr);
        assert((-kr) * t == -(kr * t)) by (nonlinear_arith);
        -k
    }
}

/// Wrapping an angle of up to a hundred thousand comes to an end: the result lies
/// within the bound, nothing is left to unwind, and it is a whole number of turns
/// away from the angle, up to rounding. Within a whole turn, the sign is kept.
pub proof fn law_wrapping_ends<S, M: SampleMath<S>>(
    m: &M,
    z: Numbers<S>,
    turn: S,
    bound: S,
    angle: S,
    r: S,
) -> (n: int)
    requires
        rounds(m, z),
        one_turn::<S, M>(m),
        turn_and_bound(m, turn, bound),
        (z.finite)(angle),
        size((z.val)(angle)) <= 100000real,
        wrapped(m, angle, bound, r),
    ensures
        (z.finite)(r),
        size((z.val)(r)) <= (z.val)(bound),
        unwound(m, r, bound, None),
        turns_apart(z, turn, angle, r, n),
        bound == turn && (z.val)(angle) >= 0real ==> (z.val)(r) >= 0real,
        bound == turn && (z.val)(angle) <= 0real ==> (z.val)(r) <= 0real,
{
    law_wrapping_takes_whole_turns(m, z, turn, bound, angle, r, 100000real)
}

/// What is not unwound any more lies within the bound.
proof fn lemma_settled<S, M: SampleMath<S>>(m: &M, z: Numbers<S>, bound: S, r: S)
    requires
        rounds(m, z),
        (z.finite)(bound),
        (z.finite)(r),
        unwound(m, r, bound, None),
    ensures
        size((z.val)(r)) <= (z.val)(bound),
{
    reveal(rounds);
    let (t, a, o, b) = choose|t: S, a: bool, o: S, b: bool| #[trigger]
        unwound_by(m, r, bound, t, a, o, b, None);
    assert(!a && !b);
}

/// An angle that lies within the bound has nothing to unwind.
pub proof fn law_nothing_to_unwind_within_the_bound<S, M: SampleMath<S>>(
    m: &M,
    z: Numbers<S>,
    bound: S,
    angle: S,
    r: Option<S>,
)
    requires
        rounds(m, z),
        (z.finite)(bound),
        (z.finite)(angle),
        size((z.val)(angle)) <= (z.val)(bound),
        unwound(m, angle, bound, r),
    ensures
        r is None,
{
    reveal(rounds);
    let (t, a, o, b) = choose|t: S, a: bool, o: S, b: bool| #[trigger]
        unwound_by(m, angle, bound, t, a, o, b, r);
    assert(!a && !b);
}

/// An angle that lies within the bound, both ends included, is left as it is.
pub proof fn law_angles_within_the_bound_are_left<S, M: SampleMath<S>>(
    m: &M,
    z: Numbers<S>,
    bound: S,
    angle: S,
    r: S,
)
    requires
        rounds(m, z),
        (z.finite)(bound),
        (z.finite)(angle),
        size((z.val)(angle)) <= (z.val)(bound),
        wrapped(m, angle, bound, r),
    ensures
        r == angle,
{
    reveal(wrapped);
    let chain = choose|chain: Seq<S>| #[trigger] wrapped_by(m, angle, bound, chain, r);
    if chain.len() > 1 {
        assert(unwound(m, chain[0], bound, Some(chain[1])));
        law_nothing_to_unwind_within_the_bound(m, z, bound, angle, Some(chain[1]));
    }
}

/// Wrapping an angle of up to a hundred thousand twice is wrapping it once.
pub proof fn law_a_wrapped_angle_is_left<S, M: SampleMath<S>>(
    m: &M,
    z: Numbers<S>,
    turn: S,
    bound: S,
    angle: S,
    once: S,
    twice: S,
)
    requires
        rounds(m, z),
        one_turn::<S, M>(m),
        turn_and_bound(m, turn, bound),
        (z.finite)(angle),
        size((z.val)(angle)) <= 100000real,
        wrapped(m, angle, bound, once),
        wrapped(m, once, bound, twice),
    ensures
        twice == once,
{
    reveal(rounds);
    let n = law_wrapping_ends(m, z, turn, bound, angle, once);
    law_angles_within_the_bound_are_left(m, z, bound, once, twice);
}

} // verus!
