//! How large the samples of the time-domain engine can become, where arithmetic
//! rounds.

use vstd::prelude::*;

use crate::dsp::alike::ssb_built;
use crate::dsp::hilbert::{convolved, ideal_tap, ideal_tap_by, is_tap, is_tap_by, HilbertFir};
use crate::dsp::ssb::{
    feedback_of, filter_made, left_hz, left_step, right_hz, right_step, sidebands, sidebands_by,
    soft_clipped, soft_clipped_by, ssb_block, ssb_block_by, ssb_made, voice_step, voice_step_by,
    voice_stepper, SsbParams, SsbShifter, VoiceState, VoiceTuning, HILBERT_TAPS,
};
use crate::math::{
    accumulated_by, blended, blended_by, clamped, hann_at, hann_at_by, turns_by, wrapped,
    wrapped_in_turn, SampleMath,
};
use crate::repeat::{
    law_clamping_twice_is_clamping_once, lemma_one_clamped, never_below_itself, repeatable,
};
use crate::ring::delayed;
use crate::rounding::{
    is_ordered, is_scale, law_wrapping_ends, lemma_clamped_lies_within, lemma_clamped_value,
    lemma_mul_add_size, lemma_near_is_off_by_little, lemma_near_stays_on_its_side,
    lemma_prod_size, lemma_product_size, near, one_turn, rounds, size, Numbers,
};
use crate::stream::{lemma_streamed_pop, streamed};

verus! {

// ------------------------------------------------------------------- clipping

/// `x`, held to the range from -3 to 3.
pub open spec fn held_to_three(x: real) -> real {
    if x < -3real {
        -3real
    } else if x > 3real {
        3real
    } else {
        x
    }
}

/// The curve of the soft clip: `y - y * y * y / 27`.
pub open spec fn curve(y: real) -> real {
    y - y * y * y / 27real
}

/// How far the soft clip may be off its curve.
pub open spec fn clip_error<S>(z: Numbers<S>) -> real {
    7real * z.unit + 30real * z.tiny
}

/// Between -3 and 3, the curve stays between -2 and 2.
proof fn lemma_curve_is_bounded(y: real)
    requires
        -3real <= y <= 3real,
    ensures
        -2real <= curve(y) <= 2real,
{
    assert(2real - (y - y * y * y / 27real) == (y - 3real) * (y - 3real) * (y + 6real) / 27real)
        by (nonlinear_arith);
    assert((y - 3real) * (y - 3real) * (y + 6real) >= 0real) by (nonlinear_arith)
        requires
            -3real <= y <= 3real,
    ;
    assert((y - y * y * y / 27real) + 2real == (y + 3real) * (y + 3real) * (6real - y) / 27real)
        by (nonlinear_arith);
    assert((y + 3real) * (y + 3real) * (6real - y) >= 0real) by (nonlinear_arith)
        requires
            -3real <= y <= 3real,
    ;
}

/// Between -3 and 3, the curve rises.
proof fn lemma_curve_rises(a: real, b: real)
    requires
        -3real <= a <= b <= 3real,
    ensures
        curve(a) <= curve(b),
{
    assert(a * a + a * b + b * b <= 27real) by (nonlinear_arith)
        requires
            -3real <= a <= 3real,
            -3real <= b <= 3real,
    ;
    let q = a * a + a * b + b * b;
    assert((b - a) * (27real - q) >= 0real) by (nonlinear_arith)
        requires
            a <= b,
            q <= 27real,
    ;
    assert((b - b * b * b / 27real) - (a - a * a * a / 27real) == (b - a) * (27real - q) / 27real)
        by (nonlinear_arith)
        requires
            q == a * a + a * b + b * b,
    ;
}

/// A product of rounded factors is off by what the factors are off.
proof fn lemma_product_error(a: real, b: real, exact_a: real, exact_b: real, ea: real, eb: real)
    requires
        size(a - exact_a) <= ea,
        size(b - exact_b) <= eb,
    ensures
        size(a * b - exact_a * exact_b) <= ea * size(b) + size(exact_a) * eb,
{
    assert(a * b - exact_a * exact_b == (a - exact_a) * b + exact_a * (b - exact_b))
        by (nonlinear_arith);
    lemma_product_size(a - exact_a, b, ea, size(b));
    lemma_product_size(exact_a, b - exact_b, size(exact_a), eb);
}

/// The cube that the soft clip computes.
proof fn lemma_cube<S>(z: Numbers<S>, y: real, sq: S, cu: S)
    requires
        is_scale(z),
        -3real <= y <= 3real,
        near(z, y * y, sq),
        near(z, (z.val)(sq) * y, cu),
    ensures
        size(y * y) <= 9real,
        size(y * y * y) <= 27real,
        size((z.val)(cu) - y * y * y) <= 55real * z.unit + 5real * z.tiny,
{
    let u = z.unit;
    let t = z.tiny;
    lemma_product_size(y, y, 3real, 3real);
    lemma_product_size(y * y, y, 9real, 3real);
    lemma_near_is_off_by_little(z, y * y, sq);
    let s = (z.val)(sq);
    let e1 = 9real * u + t;
    assert(u * size(y * y) <= 9real * u) by (nonlinear_arith)
        requires
            0real <= u,
            size(y * y) <= 9real,
    ;
    assert(size(s - y * y) <= e1);
    lemma_product_size(s - y * y, y, e1, 3real);
    assert((s - y * y) * y == s * y - y * y * y) by (nonlinear_arith);
    let ex = s * y;
    assert(size(ex - y * y * y) <= 3real * e1);
    assert(size(ex) <= 27real + 3real * e1);
    lemma_near_is_off_by_little(z, ex, cu);
    assert(u * size(ex) <= 28real * u) by (nonlinear_arith)
        requires
            0real <= u,
            size(ex) <= 28real,
    ;
}

/// The bend that the soft clip computes.
proof fn lemma_bend<S>(z: Numbers<S>, y: real, cu: S, sh: S, be: S)
    requires
        is_scale(z),
        size(y * y * y) <= 27real,
        size((z.val)(cu) - y * y * y) <= 55real * z.unit + 5real * z.tiny,
        near(z, 1real / 27real, sh),
        near(z, (z.val)(cu) * (z.val)(sh), be),
    ensures
        size((z.val)(be) - y * y * y / 27real) <= 45real / 10real * z.unit + 29real * z.tiny,
{
    let u = z.unit;
    let t = z.tiny;
    let c = (z.val)(cu);
    let h = (z.val)(sh);
    let cube = y * y * y;
    lemma_near_is_off_by_little(z, 1real / 27real, sh);
    let e2 = 55real * u + 5real * t;
    let e3 = u / 27real + t;
    assert(u * (1real / 27real) == u / 27real) by (nonlinear_arith);
    assert(size(h - 1real / 27real) <= e3);
    assert(size(h) <= 1real / 26real);
    lemma_product_error(c, h, cube, 1real / 27real, e2, e3);
    assert(cube * (1real / 27real) == cube / 27real) by (nonlinear_arith);
    assert(e2 * size(h) <= e2 / 26real) by (nonlinear_arith)
        requires
            0real <= e2,
            size(h) <= 1real / 26real,
    ;
    assert(size(cube) * e3 <= 27real * e3) by (nonlinear_arith)
        requires
            0real <= e3,
            size(cube) <= 27real,
    ;
    let ex = c * h;
    assert(size(ex - cube / 27real) <= e2 / 26real + 27real * e3);
    assert(size(cube / 27real) <= 1real);
    assert(size(ex) <= 2real);
    lemma_near_is_off_by_little(z, ex, be);
    assert(size(ex) <= 1real + 1real / 100real);
    assert(u * size(ex) <= u * (101real / 100real)) by (nonlinear_arith)
        requires
            0real <= u,
            size(ex) <= 101real / 100real,
    ;
}

/// What the soft clip makes of a sample that is held to the range from -3 to 3.
proof fn lemma_clip_of_held<S, M: SampleMath<S>>(
    m: &M,
    z: Numbers<S>,
    held: S,
    sq: S,
    cu: S,
    sh: S,
    be: S,
    r: S,
)
    requires
        rounds(m, z),
        (z.finite)(held),
        -3real <= (z.val)(held) <= 3real,
        call_ensures(M::prod, (m, held, held), sq),
        call_ensures(M::prod, (m, sq, held), cu),
        call_ensures(M::ratio, (m, 1i32, 27u32), sh),
        call_ensures(M::prod, (m, cu, sh), be),
        call_ensures(M::diff, (m, held, be), r),
    ensures
        (z.finite)(r),
        size((z.val)(r) - curve((z.val)(held))) <= clip_error(z),
{
    reveal(rounds);
    let y = (z.val)(held);
    lemma_product_size(y, y, 3real, 3real);
    assert(near(z, y * y, sq));
    lemma_near_is_off_by_little(z, y * y, sq);
    lemma_product_size((z.val)(sq), y, 10real, 3real);
    assert(near(z, (z.val)(sq) * y, cu));
    lemma_cube(z, y, sq, cu);
    lemma_near_is_off_by_little(z, (z.val)(sq) * y, cu);
    assert(near(z, (1 as int) as real / (27 as int) as real, sh));
    lemma_near_is_off_by_little(z, 1real / 27real, sh);
    assert(size((z.val)(cu)) <= 28real);
    lemma_product_size((z.val)(cu), (z.val)(sh), 28real, 1real);
    assert(near(z, (z.val)(cu) * (z.val)(sh), be));
    lemma_bend(z, y, cu, sh, be);
    lemma_near_is_off_by_little(z, (z.val)(cu) * (z.val)(sh), be);
    let b = (z.val)(be);
    lemma_curve_is_bounded(y);
    let ex = y - b;
    assert(size(ex - curve(y)) <= 45real / 10real * z.unit + 29real * z.tiny);
    assert(size(ex) <= 25real / 10real);
    assert(near(z, ex, r));
    lemma_near_is_off_by_little(z, ex, r);
    let u = z.unit;
    assert(u * size(ex) <= 25real / 10real * u) by (nonlinear_arith)
        requires
            0real <= u,
            size(ex) <= 25real / 10real,
    ;
}

/// The soft clip follows its curve, up to rounding.
pub proof fn law_soft_clip_follows_its_curve<S, M: SampleMath<S>>(
    m: &M,
    z: Numbers<S>,
    x: S,
    r: S,
)
    requires
        rounds(m, z),
        (z.finite)(x),
        soft_clipped(m, x, r),
    ensures
        (z.finite)(r),
        size((z.val)(r) - curve(held_to_three((z.val)(x)))) <= clip_error(z),
{
    let (lo, hi, y, sq, cu, sh, be) = choose|lo: S, hi: S, y: S, sq: S, cu: S, sh: S, be: S|
        #[trigger]
        soft_clipped_by(m, x, lo, hi, y, sq, cu, sh, be, r);
    lemma_ends(m, z, lo, hi);
    lemma_clamped_value(m, z, x, lo, hi, y);
    lemma_clip_of_held(m, z, y, sq, cu, sh, be, r);
}

/// The ends of the range of the soft clip.
proof fn lemma_ends<S, M: SampleMath<S>>(m: &M, z: Numbers<S>, lo: S, hi: S)
    requires
        rounds(m, z),
        call_ensures(M::ratio, (m, -3i32, 1u32), lo),
        call_ensures(M::ratio, (m, 3i32, 1u32), hi),
    ensures
        (z.finite)(lo),
        (z.val)(lo) == -3real,
        (z.finite)(hi),
        (z.val)(hi) == 3real,
{
    reveal(rounds);
}

/// The soft clip is bounded: whatever goes in, infinities included, what comes out
/// is at most what the curve gives at the end of its range, which is 2, up to
/// rounding.
pub proof fn law_soft_clip_is_bounded<S, M: SampleMath<S>>(m: &M, z: Numbers<S>, x: S, r: S)
    requires
        rounds(m, z),
        is_ordered(m, z, x),
        soft_clipped(m, x, r),
    ensures
        (z.finite)(r),
        size((z.val)(r)) <= 2real + clip_error(z),
        size((z.val)(r)) <= 2real + 1real / 1000000real,
        curve(3real) == 2real,
{
    let (lo, hi, y, sq, cu, sh, be) = choose|lo: S, hi: S, y: S, sq: S, cu: S, sh: S, be: S|
        #[trigger]
        soft_clipped_by(m, x, lo, hi, y, sq, cu, sh, be, r);
    assert(is_scale(z)) by {
        reveal(rounds);
    }
    lemma_ends(m, z, lo, hi);
    lemma_clamped_lies_within(m, z, x, lo, hi, y);
    lemma_clip_of_held(m, z, y, sq, cu, sh, be, r);
    lemma_curve_is_bounded((z.val)(y));
    assert(3real * 3real * 3real == 27real) by (nonlinear_arith);
}

/// The soft clip rises: a larger sample does not give a smaller one, up to rounding.
pub proof fn law_soft_clip_rises<S, M: SampleMath<S>>(
    m: &M,
    z: Numbers<S>,
    x: S,
    r: S,
    x1: S,
    r1: S,
)
    requires
        rounds(m, z),
        (z.finite)(x),
        (z.finite)(x1),
        (z.val)(x) <= (z.val)(x1),
        soft_clipped(m, x, r),
        soft_clipped(m, x1, r1),
    ensures
        (z.val)(r) <= (z.val)(r1) + 2real * clip_error(z),
        (z.val)(r) <= (z.val)(r1) + 1real / 1000000real,
{
    assert(is_scale(z)) by {
        reveal(rounds);
    }
    law_soft_clip_follows_its_curve(m, z, x, r);
    law_soft_clip_follows_its_curve(m, z, x1, r1);
    lemma_curve_rises(held_to_three((z.val)(x)), held_to_three((z.val)(x1)));
}

/// Holding a sample to the range from -3 to 3 before it is clipped changes nothing.
pub proof fn law_clipping_what_is_held_changes_nothing<S, M: SampleMath<S>>(
    m: &M,
    x: S,
    lo: S,
    hi: S,
    y: S,
    r: S,
    s: S,
)
    requires
        repeatable::<S, M>(m),
        never_below_itself::<S, M>(m),
        call_ensures(M::ratio, (m, -3i32, 1u32), lo),
        call_ensures(M::ratio, (m, 3i32, 1u32), hi),
        clamped(m, x, lo, hi, y),
        soft_clipped(m, x, r),
        soft_clipped(m, y, s),
    ensures
        r == s,
{
    let (lo1, hi1, y1, sq1, cu1, sh1, be1) = choose|
        lo: S,
        hi: S,
        y: S,
        sq: S,
        cu: S,
        sh: S,
        be: S,
    | #[trigger]
        soft_clipped_by(m, x, lo, hi, y, sq, cu, sh, be, r);
    let (lo2, hi2, y2, sq2, cu2, sh2, be2) = choose|
        lo: S,
        hi: S,
        v: S,
        sq: S,
        cu: S,
        sh: S,
        be: S,
    | #[trigger]
        soft_clipped_by(m, y, lo, hi, v, sq, cu, sh, be, s);
    assert(lo == lo1 && lo == lo2 && hi == hi1 && hi == hi2);
    lemma_one_clamped(m, x, lo, hi, y, y1);
    law_clamping_twice_is_clamping_once(m, x, lo, hi, y, y2);
    assert(y1 == y2);
}

/// What the soft clip takes off a sample of up to 3 has its sign and is not more
/// than twice as large.
proof fn lemma_bend_is_small<S, M: SampleMath<S>>(
    m: &M,
    z: Numbers<S>,
    y: S,
    sq: S,
    cu: S,
    sh: S,
    be: S,
)
    requires
        rounds(m, z),
        (z.finite)(y),
        size((z.val)(y)) <= 3real,
        call_ensures(M::prod, (m, y, y), sq),
        call_ensures(M::prod, (m, sq, y), cu),
        call_ensures(M::ratio, (m, 1i32, 27u32), sh),
        call_ensures(M::prod, (m, cu, sh), be),
    ensures
        (z.finite)(be),
        size((z.val)(be)) <= 2real * size((z.val)(y)),
        (z.val)(y) >= 0real ==> (z.val)(be) >= 0real,
        (z.val)(y) <= 0real ==> (z.val)(be) <= 0real,
{
    reveal(rounds);
    let v = (z.val)(y);
    let zero = (z.whole)(0);
    let one = (z.whole)(1);
    let two = (z.whole)(2);
    let nine = (z.whole)(9);
    let many = (z.whole)(27);
    let less_two = (z.whole)(-2);
    let less_many = (z.whole)(-27);
    let other = (z.neg)(y);
    assert((z.val)(zero) == 0real && (z.val)(one) == 1real && (z.val)(two) == 2real);
    assert((z.val)(nine) == 9real && (z.val)(many) == 27real);
    assert((z.val)(less_two) == -2real && (z.val)(less_many) == -27real);
    assert((z.val)(other) == -v);
    lemma_product_size(v, v, 3real, 3real);
    let q = v * v;
    assert(q >= 0real) by (nonlinear_arith)
        requires
            q == v * v,
    ;
    lemma_near_stays_on_its_side(z, q, sq, zero);
    lemma_near_stays_on_its_side(z, q, sq, nine);
    lemma_near_stays_on_its_side(z, q, sq, one);
    let s = (z.val)(sq);
    assert(0real <= s <= 9real);
    lemma_product_size(s, v, 9real, 3real);
    let e = s * v;
    assert(v >= 0real ==> e >= 0real) by (nonlinear_arith)
        requires
            e == s * v,
            s >= 0real,
    ;
    assert(v <= 0real ==> e <= 0real) by (nonlinear_arith)
        requires
            e == s * v,
            s >= 0real,
    ;
    lemma_near_stays_on_its_side(z, e, cu, zero);
    lemma_near_stays_on_its_side(z, e, cu, many);
    lemma_near_stays_on_its_side(z, e, cu, less_many);
    lemma_near_stays_on_its_side(z, e, cu, y);
    lemma_near_stays_on_its_side(z, e, cu, other);
    let c = (z.val)(cu);
    assert(near(z, (1 as int) as real / (27 as int) as real, sh));
    lemma_near_is_off_by_little(z, 1real / 27real, sh);
    let h = (z.val)(sh);
    assert(0real <= h <= 1real / 26real);
    lemma_product_size(c, h, 27real, 1real / 26real);
    let b = c * h;
    assert(size(b) <= size(c) / 26real) by {
        lemma_product_size(c, h, size(c), 1real / 26real);
        assert(size(c) * (1real / 26real) == size(c) / 26real) by (nonlinear_arith);
    }
    assert(c >= 0real ==> b >= 0real) by (nonlinear_arith)
        requires
            b == c * h,
            h >= 0real,
    ;
    assert(c <= 0real ==> b <= 0real) by (nonlinear_arith)
        requires
            b == c * h,
            h >= 0real,
    ;
    lemma_near_stays_on_its_side(z, b, be, zero);
    lemma_near_stays_on_its_side(z, b, be, two);
    lemma_near_stays_on_its_side(z, b, be, less_two);
    lemma_near_stays_on_its_side(z, b, be, y);
    lemma_near_stays_on_its_side(z, b, be, other);
    if size(v) <= 1real {
        assert(q <= 1real) by (nonlinear_arith)
            requires
                q == v * v,
                -1real <= v <= 1real,
        ;
        assert(s <= 1real);
        assert(size(e) <= size(v)) by {
            lemma_product_size(s, v, 1real, size(v));
        }
        assert(size(c) <= size(v));
        assert(size(b) <= size(v));
        assert(size((z.val)(be)) <= size(v));
    } else {
        assert(size((z.val)(be)) <= 2real);
    }
}

/// A sample of up to 3 does not grow when it is clipped.
pub proof fn law_soft_clip_does_not_grow<S, M: SampleMath<S>>(m: &M, z: Numbers<S>, x: S, r: S)
    requires
        rounds(m, z),
        (z.finite)(x),
        size((z.val)(x)) <= 3real,
        soft_clipped(m, x, r),
    ensures
        (z.finite)(r),
        size((z.val)(r)) <= size((z.val)(x)),
{
    reveal(rounds);
    let (lo, hi, y, sq, cu, sh, be) = choose|lo: S, hi: S, y: S, sq: S, cu: S, sh: S, be: S|
        #[trigger]
        soft_clipped_by(m, x, lo, hi, y, sq, cu, sh, be, r);
    lemma_clamped_value(m, z, x, lo, hi, y);
    lemma_bend_is_small(m, z, y, sq, cu, sh, be);
    let v = (z.val)(y);
    let ex = v - (z.val)(be);
    assert(near(z, ex, r));
    let other = (z.neg)(y);
    assert((z.val)(other) == -v);
    lemma_near_stays_on_its_side(z, ex, r, y);
    lemma_near_stays_on_its_side(z, ex, r, other);
}

// ----------------------------------------------------------------- the taps

/// How large the `k`-th of the engine's taps can be.
pub open spec fn tap_cap(k: int) -> real {
    let away = if k < 31 {
        31 - k
    } else {
        k - 31
    };
    if away % 2 == 0 {
        1real / 1000000real
    } else {
        200real / 313real * (1real / (away as real))
    }
}

/// How large the first `k` of the engine's taps can be, taken together.
pub open spec fn taps_cap(k: nat) -> real
    decreases k,
{
    if k == 0 {
        0real
    } else {
        taps_cap((k - 1) as nat) + tap_cap(k - 1)
    }
}

/// The sizes of the first `k` of `xs`, added up.
pub open spec fn total_size<S>(z: Numbers<S>, xs: Seq<S>, k: nat) -> real
    decreases k,
{
    if k == 0 {
        0real
    } else {
        total_size(z, xs, (k - 1) as nat) + size((z.val)(xs[k - 1]))
    }
}

/// Two neighbours, the first `away` from the middle tap.
proof fn lemma_two_taps(k: nat, away: real)
    requires
        k % 2 == 0,
        away == size((31 - k) as real),
    ensures
        taps_cap(k + 2) == taps_cap(k) + 200real / 313real * (1real / away) + 1real / 1000000real,
{
    assert(taps_cap(k + 2) == taps_cap(k + 1) + tap_cap(k as int + 1));
    assert(taps_cap(k + 1) == taps_cap(k) + tap_cap(k as int));
}

/// All of them come to less than 3.1.
proof fn lemma_taps_cap()
    ensures
        taps_cap(63) <= 31real / 10real,
{
    lemma_two_taps(0, 31real);
    lemma_two_taps(2, 29real);
    lemma_two_taps(4, 27real);
    lemma_two_taps(6, 25real);
    lemma_two_taps(8, 23real);
    lemma_two_taps(10, 21real);
    lemma_two_taps(12, 19real);
    lemma_two_taps(14, 17real);
    lemma_two_taps(16, 15real);
    lemma_two_taps(18, 13real);
    lemma_two_taps(20, 11real);
    lemma_two_taps(22, 9real);
    lemma_two_taps(24, 7real);
    lemma_two_taps(26, 5real);
    lemma_two_taps(28, 3real);
    lemma_two_taps(30, 1real);
    lemma_two_taps(32, 1real);
    lemma_two_taps(34, 3real);
    lemma_two_taps(36, 5real);
    lemma_two_taps(38, 7real);
    lemma_two_taps(40, 9real);
    lemma_two_taps(42, 11real);
    lemma_two_taps(44, 13real);
    lemma_two_taps(46, 15real);
    lemma_two_taps(48, 17real);
    lemma_two_taps(50, 19real);
    lemma_two_taps(52, 21real);
    lemma_two_taps(54, 23real);
    lemma_two_taps(56, 25real);
    lemma_two_taps(58, 27real);
    lemma_two_taps(60, 29real);
    assert(tap_cap(62) == 200real / 313real * (1real / 31real));
}

/// The window at a tap is at most 1, up to rounding.
proof fn lemma_window_size<S, M: SampleMath<S>>(m: &M, z: Numbers<S>, k: usize, w: S)
    requires
        rounds(m, z),
        k <= 62,
        hann_at(m, k, 62, w),
    ensures
        (z.finite)(w),
        size((z.val)(w)) <= 10001real / 10000real,
{
    reveal(rounds);
    let (half, turn, at, along, span, angle, cos, dip) = choose|
        half: S,
        turn: S,
        at: S,
        along: S,
        span: S,
        angle: S,
        cos: S,
        dip: S,
    | #[trigger]
        hann_at_by(m, k, 62, half, turn, at, along, span, angle, cos, dip, w);
    assert(near(z, (1 as int) as real / (2 as int) as real, half));
    lemma_near_is_off_by_little(z, 1real / 2real, half);
    assert((z.val)(at) == (k as int) as real);
    assert(size((z.val)(at)) <= 62real);
    lemma_prod_size(m, z, turn, at, along, 629real / 100real, 62real, 390real);
    assert((z.val)(span) == 62real);
    let a = (z.val)(along);
    assert(size(a / 62real) <= 391real);
    assert(near(z, a / 62real, angle));
    lemma_near_is_off_by_little(z, a / 62real, angle);
    lemma_prod_size(
        m,
        z,
        half,
        cos,
        dip,
        500001real / 1000000real,
        1real,
        500001real / 1000000real,
    );
    let ex = (z.val)(half) - (z.val)(dip);
    assert(near(z, ex, w));
    lemma_near_is_off_by_little(z, ex, w);
}

/// The ideal tap at an odd distance.
proof fn lemma_ideal_size<S, M: SampleMath<S>>(m: &M, z: Numbers<S>, offset: i32, d: real, h: S)
    requires
        rounds(m, z),
        -31 <= offset <= 31,
        d == size((offset as int) as real),
        d >= 1real,
        ideal_tap(m, offset, h),
    ensures
        (z.finite)(h),
        size((z.val)(h)) <= 2000real / 3135real * (1real / d),
{
    reveal(rounds);
    let (two, pi, away, angle) = choose|two: S, pi: S, away: S, angle: S| #[trigger]
        ideal_tap_by(m, offset, two, pi, away, angle, h);
    let p = (z.val)(pi);
    let i = (offset as int) as real;
    assert((z.val)(away) == i);
    assert(d <= 31real);
    lemma_prod_size(m, z, pi, away, angle, 629real / 200real, 31real, 98real);
    lemma_product_size(p, i, p, d);
    assert(size(p * i) >= 314real / 100real * d) by (nonlinear_arith)
        requires
            size(p * i) == p * d,
            p >= 314real / 100real,
            d >= 1real,
            size(p) == p,
    ;
    let a = (z.val)(angle);
    assert(size(a) >= 3139real / 1000real * d);
    assert(a != 0real);
    let q = 2real / a;
    let g = 1real / d;
    assert(q * a == 2real) by (nonlinear_arith)
        requires
            a != 0real,
            q == 2real / a,
    ;
    lemma_product_size(q, a, size(q), size(a));
    assert(g * d == 1real) by (nonlinear_arith)
        requires
            d >= 1real,
            g == 1real / d,
    ;
    assert(g >= 1real / 31real) by (nonlinear_arith)
        requires
            g * d == 1real,
            1real <= d <= 31real,
    ;
    assert(g <= 1real) by (nonlinear_arith)
        requires
            g * d == 1real,
            1real <= d,
    ;
    let sq = size(q);
    let sa = size(a);
    assert(sq * (3139real / 1000real) <= 2real * g) by (nonlinear_arith)
        requires
            sq * sa == 2real,
            sa >= 3139real / 1000real * d,
            g * d == 1real,
            d >= 1real,
            g > 0real,
            sq >= 0real,
    ;
    assert(sq <= 1real);
    assert((z.val)(two) == 2real);
    assert(near(z, q, h));
    lemma_near_is_off_by_little(z, q, h);
    assert(size((z.val)(h)) <= sq + sq / 1000000real + 1real / 1000000000real);
    assert(2000real / 3135real * g >= sq + sq / 1000000real + 1real / 1000000000real);
}

/// A tap is as large as its place allows.
proof fn lemma_tap_size<S, M: SampleMath<S>>(m: &M, z: Numbers<S>, k: int, tap: S)
    requires
        rounds(m, z),
        0 <= k < 63,
        is_tap(m, 63, k, tap),
    ensures
        (z.finite)(tap),
        size((z.val)(tap)) <= tap_cap(k),
{
    let (h, w) = choose|h: S, w: S| #[trigger] is_tap_by(m, 63, k, h, w, tap);
    lemma_window_size(m, z, k as usize, w);
    let offset = k - 31;
    if offset % 2 == 0 {
        assert((z.finite)(h) && (z.val)(h) == 0real) by {
            reveal(rounds);
        }
        lemma_prod_size(m, z, h, w, tap, 0real, 10001real / 10000real, 0real);
        assert(tap_cap(k) == 1real / 1000000real);
    } else {
        let d = size(offset as real);
        let away = if k < 31 {
            31 - k
        } else {
            k - 31
        };
        assert(d == away as real);
        assert(d >= 1real);
        assert((offset as i32) as int == offset);
        lemma_ideal_size(m, z, offset as i32, d, h);
        let g = 1real / d;
        assert(g >= 1real / 31real) by (nonlinear_arith)
            requires
                g == 1real / d,
                1real <= d <= 31real,
        ;
        assert(g <= 1real) by (nonlinear_arith)
            requires
                g == 1real / d,
                1real <= d,
        ;
        let cap_h = 2000real / 3135real * g;
        let cap = 2000real / 3135real * (10001real / 10000real) * g;
        assert(cap_h * (10001real / 10000real) == cap) by (nonlinear_arith)
            requires
                cap_h == 2000real / 3135real * g,
                cap == 2000real / 3135real * (10001real / 10000real) * g,
        ;
        lemma_prod_size(m, z, h, w, tap, cap_h, 10001real / 10000real, cap);
        assert(cap + cap / 1000000real + 1real / 1000000000real <= 200real / 313real * g);
        assert(tap_cap(k) == 200real / 313real * g);
    }
}

/// The engine's taps come to less than 3.1.
proof fn lemma_taps_size<S: Copy, M: SampleMath<S>>(
    m: &M,
    z: Numbers<S>,
    f: HilbertFir<S>,
    k: nat,
)
    requires
        rounds(m, z),
        filter_made(m, f),
        k <= 63,
    ensures
        total_size(z, f.taps(), k) <= taps_cap(k),
        forall|i: int| 0 <= i < k ==> (z.finite)(#[trigger] f.taps()[i]),
    decreases k,
{
    if k > 0 {
        lemma_taps_size(m, z, f, (k - 1) as nat);
        assert(is_tap(m, HILBERT_TAPS as int, k - 1, f.taps()[k - 1]));
        lemma_tap_size(m, z, k - 1, f.taps()[k - 1]);
    }
}

// ------------------------------------------------------------------ the loop

/// What a channel remembers is finite and small: what its filter holds, what is fed
/// back, and the phase of its carrier.
pub open spec fn tame_state<S>(z: Numbers<S>, s: VoiceState<S>) -> bool {
    &&& forall|i: int|
        0 <= i < s.held.len() ==> (z.finite)(#[trigger] s.held[i]) && size((z.val)(s.held[i]))
            <= 57real / 20real
    &&& (z.finite)(s.echo)
    &&& size((z.val)(s.echo)) <= 2001real / 1000real
    &&& (z.finite)(s.phase)
    &&& size((z.val)(s.phase)) <= 7real
}

/// A share: finite, from 0 to 1.
pub open spec fn is_share<S>(z: Numbers<S>, x: S) -> bool {
    (z.finite)(x) && 0real <= (z.val)(x) <= 1real
}

/// What a channel works with is finite and small.
pub open spec fn tame_tuning<S>(z: Numbers<S>, t: VoiceTuning<S>) -> bool {
    &&& t.taps.len() == HILBERT_TAPS
    &&& forall|i: int| 0 <= i < t.taps.len() ==> (z.finite)(#[trigger] t.taps[i])
    &&& total_size(z, t.taps, t.taps.len()) <= 31real / 10real
    &&& (z.finite)(t.zero)
    &&& (z.val)(t.zero) == 0real
    &&& (z.finite)(t.feedback)
    &&& 0real <= (z.val)(t.feedback) <= 9201real / 10000real
    &&& is_share(z, t.params.upper_level)
    &&& is_share(z, t.params.lower_level)
    &&& is_share(z, t.params.mix)
    &&& (z.finite)(t.step)
    &&& size((z.val)(t.step)) <= 10real
}

/// An input sample: finite, at most 1 in size.
pub open spec fn is_input<S>(z: Numbers<S>, x: S) -> bool {
    (z.finite)(x) && size((z.val)(x)) <= 1real
}

/// An output sample: finite, at most 24 in size.
pub open spec fn is_output<S>(z: Numbers<S>, x: S) -> bool {
    (z.finite)(x) && size((z.val)(x)) <= 24real
}

/// The input of a block.
pub open spec fn are_inputs<S>(z: Numbers<S>, xs: Seq<S>) -> bool {
    forall|i: int| 0 <= i < xs.len() ==> is_input(z, #[trigger] xs[i])
}

/// The output of a block.
pub open spec fn are_outputs<S>(z: Numbers<S>, xs: Seq<S>) -> bool {
    forall|i: int| 0 <= i < xs.len() ==> is_output(z, #[trigger] xs[i])
}

/// More sizes add up to more.
proof fn lemma_total_grows<S>(z: Numbers<S>, xs: Seq<S>, k: nat, n: nat)
    requires
        k <= n,
    ensures
        0real <= total_size(z, xs, k) <= total_size(z, xs, n),
    decreases n,
{
    if k < n {
        lemma_total_grows(z, xs, k, (n - 1) as nat);
    } else if n > 0 {
        lemma_total_grows(z, xs, (n - 1) as nat, (n - 1) as nat);
    }
}

/// What a filter adds up is as large as its taps and what it holds allow.
proof fn lemma_partial_size<S, M: SampleMath<S>>(
    m: &M,
    z: Numbers<S>,
    a: Seq<S>,
    b: Seq<S>,
    start: S,
    p: Seq<S>,
    r: S,
    k: nat,
)
    requires
        rounds(m, z),
        a.len() == b.len(),
        a.len() <= 63,
        k <= a.len(),
        forall|i: int| 0 <= i < a.len() ==> (z.finite)(#[trigger] a[i]),
        forall|i: int|
            0 <= i < b.len() ==> (z.finite)(#[trigger] b[i]) && size((z.val)(b[i])) <= 57real
                / 20real,
        total_size(z, a, a.len()) <= 31real / 10real,
        (z.finite)(start),
        (z.val)(start) == 0real,
        accumulated_by(m, a, b, start, p, r),
    ensures
        (z.finite)(p[k as int]),
        size((z.val)(p[k as int])) <= total_size(z, a, k) * (57real / 20real) + (k as real)
            / 1000real,
    decreases k,
{
    if k > 0 {
        let j = k - 1;
        lemma_partial_size(m, z, a, b, start, p, r, j as nat);
        lemma_total_grows(z, a, j as nat, k);
        lemma_total_grows(z, a, k, a.len());
        assert(call_ensures(M::mul_add, (m, p[j], a[j], b[j]), p[j + 1]));
        let x = (z.val)(a[j]);
        let y = (z.val)(b[j]);
        let t = total_size(z, a, j as nat);
        lemma_product_size(x, y, size(x), 57real / 20real);
        assert(total_size(z, a, k) == t + size(x));
        assert((t + size(x)) * (57real / 20real) == t * (57real / 20real) + size(x) * (57real
            / 20real)) by (nonlinear_arith);
        assert(k as real == (j as real) + 1real);
        lemma_mul_add_size(m, z, p[j], a[j], b[j], p[j + 1], 10real, 10real);
    }
}

/// One step of a tame channel.
#[verifier::rlimit(40)]
proof fn lemma_tame_step<S, M: SampleMath<S>>(
    m: &M,
    z: Numbers<S>,
    t: VoiceTuning<S>,
    s: VoiceState<S>,
    x: S,
    next: VoiceState<S>,
    out: S,
)
    requires
        rounds(m, z),
        one_turn::<S, M>(m),
        tame_tuning(z, t),
        tame_state(z, s),
        s.held.len() == t.taps.len(),
        is_input(z, x),
        voice_step(m, t, s, x, next, out),
    ensures
        tame_state(z, next),
        next.held.len() == t.taps.len(),
        is_output(z, out),
{
    reveal(voice_step);
    let (y, im, upper, lower, part, wet, turned) = choose|
        y: S,
        im: S,
        upper: S,
        lower: S,
        part: S,
        wet: S,
        turned: S,
    | #[trigger]
        voice_step_by(m, t, s, x, y, im, upper, lower, part, wet, turned, next, out);
    lemma_tame_input(m, z, t.feedback, s.echo, x, y);
    assert forall|i: int| 0 <= i < next.held.len() implies (z.finite)(#[trigger] next.held[i])
        && size((z.val)(next.held[i])) <= 57real / 20real by {
        if i < next.held.len() - 1 {
            assert(next.held[i] == s.held[i + 1]);
        }
    }
    let re = delayed(next.held, (t.taps.len() - 1) / 2);
    assert((z.finite)(re) && size((z.val)(re)) <= 57real / 20real);
    lemma_tame_filter(m, z, t, next.held, im);
    lemma_tame_wet(m, z, t, re, im, s.phase, upper, lower, part, wet);
    lemma_tame_blend(m, z, t.params.mix, re, wet, out);
    law_soft_clip_is_bounded(m, z, wet, next.echo);
    assert(is_scale(z)) by {
        reveal(rounds);
    }
    lemma_tame_phase(m, z, s.phase, t.step, turned, next.phase);
}

/// What goes into the filter stays small.
proof fn lemma_tame_input<S, M: SampleMath<S>>(
    m: &M,
    z: Numbers<S>,
    feedback: S,
    echo: S,
    x: S,
    y: S,
)
    requires
        rounds(m, z),
        (z.finite)(feedback),
        0real <= (z.val)(feedback) <= 9201real / 10000real,
        (z.finite)(echo),
        size((z.val)(echo)) <= 2001real / 1000real,
        is_input(z, x),
        call_ensures(M::mul_add, (m, x, feedback, echo), y),
    ensures
        (z.finite)(y),
        size((z.val)(y)) <= 57real / 20real,
{
    lemma_product_size((z.val)(feedback), (z.val)(echo), 9201real / 10000real, 2001real / 1000real);
    assert((9201real / 10000real) * (2001real / 1000real) <= 1842real / 1000real)
        by (nonlinear_arith);
    lemma_mul_add_size(m, z, x, feedback, echo, y, 1real, 2real);
}

/// What comes out of the filter stays small.
proof fn lemma_tame_filter<S, M: SampleMath<S>>(
    m: &M,
    z: Numbers<S>,
    t: VoiceTuning<S>,
    held: Seq<S>,
    im: S,
)
    requires
        rounds(m, z),
        tame_tuning(z, t),
        held.len() == t.taps.len(),
        forall|i: int|
            0 <= i < held.len() ==> (z.finite)(#[trigger] held[i]) && size((z.val)(held[i]))
                <= 57real / 20real,
        convolved(m, t.taps, held, t.zero, im),
    ensures
        (z.finite)(im),
        size((z.val)(im)) <= 89real / 10real,
{
    let b = held.reverse();
    assert forall|i: int| 0 <= i < b.len() implies (z.finite)(#[trigger] b[i]) && size(
        (z.val)(b[i]),
    ) <= 57real / 20real by {
        assert(b[i] == held[held.len() - 1 - i]);
    }
    let p = choose|p: Seq<S>| #[trigger] accumulated_by(m, t.taps, b, t.zero, p, im);
    lemma_partial_size(m, z, t.taps, b, t.zero, p, im, t.taps.len());
}

/// The wet signal stays small.
proof fn lemma_tame_wet<S, M: SampleMath<S>>(
    m: &M,
    z: Numbers<S>,
    t: VoiceTuning<S>,
    re: S,
    im: S,
    phase: S,
    upper: S,
    lower: S,
    part: S,
    wet: S,
)
    requires
        rounds(m, z),
        is_share(z, t.params.upper_level),
        is_share(z, t.params.lower_level),
        (z.finite)(re),
        size((z.val)(re)) <= 57real / 20real,
        (z.finite)(im),
        size((z.val)(im)) <= 89real / 10real,
        (z.finite)(phase),
        sidebands(m, re, im, phase, upper, lower),
        call_ensures(M::prod, (m, t.params.upper_level, upper), part),
        call_ensures(M::mul_add, (m, part, t.params.lower_level, lower), wet),
    ensures
        (z.finite)(wet),
        size((z.val)(wet)) <= 2360real / 100real,
{
    let (sin, cos, i, q) = choose|sin: S, cos: S, i: S, q: S| #[trigger]
        sidebands_by(m, re, im, phase, sin, cos, i, q, upper, lower);
    assert((z.finite)((sin, cos).0) && (z.finite)((sin, cos).1) && size((z.val)((sin, cos).0))
        <= 1real && size((z.val)((sin, cos).1)) <= 1real) by {
        reveal(rounds);
    }
    lemma_prod_size(m, z, re, cos, i, 57real / 20real, 1real, 57real / 20real);
    lemma_prod_size(m, z, im, sin, q, 89real / 10real, 1real, 89real / 10real);
    assert(near(z, (z.val)(i) - (z.val)(q), upper) && near(z, (z.val)(i) + (z.val)(q), lower)
        && is_scale(z)) by {
        reveal(rounds);
    }
    lemma_near_is_off_by_little(z, (z.val)(i) - (z.val)(q), upper);
    lemma_near_is_off_by_little(z, (z.val)(i) + (z.val)(q), lower);
    let cap = 11751real / 1000real;
    lemma_prod_size(m, z, t.params.upper_level, upper, part, 1real, cap, cap);
    lemma_product_size((z.val)(t.params.lower_level), (z.val)(lower), 1real, cap);
    lemma_mul_add_size(m, z, part, t.params.lower_level, lower, wet, 12real, 12real);
}

/// The blend stays small.
proof fn lemma_tame_blend<S, M: SampleMath<S>>(
    m: &M,
    z: Numbers<S>,
    mix: S,
    re: S,
    wet: S,
    out: S,
)
    requires
        rounds(m, z),
        is_share(z, mix),
        (z.finite)(re),
        size((z.val)(re)) <= 57real / 20real,
        (z.finite)(wet),
        size((z.val)(wet)) <= 2360real / 100real,
        blended(m, mix, re, wet, out),
    ensures
        is_output(z, out),
{
    reveal(blended);
    let (one, keep, part) = choose|one: S, keep: S, part: S| #[trigger]
        blended_by(m, mix, re, wet, one, keep, part, out);
    let x = (z.val)(mix);
    assert(near(z, 1real - x, keep) && is_scale(z)) by {
        reveal(rounds);
        assert((z.val)(one) == 1real);
    }
    lemma_near_is_off_by_little(z, 1real - x, keep);
    let k = (z.val)(keep);
    let w = 2360real / 100real;
    let cap_k = 1real - x + 1real / 100000real;
    assert(size(k) <= cap_k);
    let cap_part = cap_k * (57real / 20real);
    assert(cap_part <= 3real && cap_part <= cap_k * w) by (nonlinear_arith)
        requires
            cap_part == cap_k * (57real / 20real),
            0real <= cap_k <= 100001real / 100000real,
            w == 2360real / 100real,
    ;
    lemma_prod_size(m, z, keep, re, part, cap_k, 57real / 20real, cap_part);
    lemma_product_size(x, (z.val)(wet), x, w);
    assert(x * w <= w) by (nonlinear_arith)
        requires
            0real <= x <= 1real,
            w == 2360real / 100real,
    ;
    lemma_mul_add_size(m, z, part, mix, wet, out, 4real, w);
    assert(cap_k * w + x * w == (1real + 1real / 100000real) * w) by (nonlinear_arith)
        requires
            cap_k == 1real - x + 1real / 100000real,
    ;
}

/// The phase of the carrier stays small.
proof fn lemma_tame_phase<S, M: SampleMath<S>>(
    m: &M,
    z: Numbers<S>,
    phase: S,
    step: S,
    turned: S,
    next: S,
)
    requires
        rounds(m, z),
        one_turn::<S, M>(m),
        (z.finite)(phase),
        size((z.val)(phase)) <= 7real,
        (z.finite)(step),
        size((z.val)(step)) <= 10real,
        call_ensures(M::sum, (m, phase, step), turned),
        wrapped_in_turn(m, turned, next),
    ensures
        (z.finite)(next),
        size((z.val)(next)) <= 7real,
{
    let ex = (z.val)(phase) + (z.val)(step);
    assert(near(z, ex, turned) && is_scale(z)) by {
        reveal(rounds);
    }
    lemma_near_is_off_by_little(z, ex, turned);
    let turn = choose|b: S|
        call_ensures(M::full_turn, (m,), b) && #[trigger] wrapped(m, turned, b, next);
    let n = law_wrapping_ends(m, z, turn, turn, turned, next);
    assert((z.val)(turn) <= 629real / 100real) by {
        reveal(rounds);
    }
}

/// A tame channel stays tame, however long its input is, and all that it gives is
/// at most 24.
pub proof fn law_tame_channels_stay_tame<S, M: SampleMath<S>>(
    m: &M,
    z: Numbers<S>,
    t: VoiceTuning<S>,
    from: VoiceState<S>,
    ins: Seq<S>,
    outs: Seq<S>,
    to: VoiceState<S>,
)
    requires
        rounds(m, z),
        one_turn::<S, M>(m),
        tame_tuning(z, t),
        tame_state(z, from),
        from.held.len() == t.taps.len(),
        forall|i: int| 0 <= i < ins.len() ==> is_input(z, #[trigger] ins[i]),
        streamed(voice_stepper(m, t), from, ins, outs, to),
    ensures
        tame_state(z, to),
        to.held.len() == t.taps.len(),
        outs.len() == ins.len(),
        forall|i: int| 0 <= i < outs.len() ==> is_output(z, #[trigger] outs[i]),
    decreases ins.len(),
{
    if ins.len() > 0 {
        let mid = lemma_streamed_pop(voice_stepper(m, t), from, ins, outs, to);
        assert forall|i: int| 0 <= i < ins.drop_last().len() implies is_input(
            z,
            #[trigger] ins.drop_last()[i],
        ) by {
            assert(is_input(z, ins[i]));
        }
        law_tame_channels_stay_tame(m, z, t, from, ins.drop_last(), outs.drop_last(), mid);
        assert(is_input(z, ins[ins.len() - 1]));
        lemma_tame_step(m, z, t, mid, ins.last(), to, outs.last());
        assert forall|i: int| 0 <= i < outs.len() implies is_output(z, #[trigger] outs[i]) by {
            if i < outs.len() - 1 {
                assert(is_output(z, outs.drop_last()[i]));
            }
        }
    }
}

/// Settings that keep the loop tame: shares from 0 to 1, shift and spread of at most
/// 2000 Hz, and any feedback that is a number, infinities included.
pub open spec fn tame_params<S, M: SampleMath<S>>(
    m: &M,
    z: Numbers<S>,
    p: SsbParams<S>,
) -> bool {
    &&& is_share(z, p.upper_level)
    &&& is_share(z, p.lower_level)
    &&& is_share(z, p.mix)
    &&& is_ordered(m, z, p.feedback)
    &&& (z.finite)(p.shift_hz)
    &&& size((z.val)(p.shift_hz)) <= 2000real
    &&& (z.finite)(p.stereo_spread_hz)
    &&& size((z.val)(p.stereo_spread_hz)) <= 2000real
}

/// A carrier moves by little per sample.
proof fn lemma_turn_size<S, M: SampleMath<S>>(m: &M, z: Numbers<S>, hz: S, rate: S, step: S)
    requires
        rounds(m, z),
        (z.finite)(hz),
        size((z.val)(hz)) <= 3001real,
        (z.finite)(rate),
        (z.val)(rate) >= 8000real,
        turns_by(m, hz, rate, step),
    ensures
        (z.finite)(step),
        size((z.val)(step)) <= 10real,
{
    let (turn, fast) = choose|turn: S, fast: S|
        call_ensures(M::full_turn, (m,), turn) && #[trigger] call_ensures(
            M::prod,
            (m, turn, hz),
            fast,
        ) && call_ensures(M::quot, (m, fast, rate), step);
    assert((z.finite)(turn) && size((z.val)(turn)) <= 629real / 100real && is_scale(z)) by {
        reveal(rounds);
    }
    lemma_prod_size(m, z, turn, hz, fast, 629real / 100real, 3001real, 18880real);
    let f = (z.val)(fast);
    let r = (z.val)(rate);
    let q = f / r;
    assert(q * r == f) by (nonlinear_arith)
        requires
            r >= 8000real,
            q == f / r,
    ;
    assert(size(q) <= 3real) by {
        lemma_product_size(q, r, size(q), r);
        let sq = size(q);
        assert(sq <= 3real) by (nonlinear_arith)
            requires
                sq * r <= 18890real,
                r >= 8000real,
                sq >= 0real,
        ;
    }
    assert(near(z, q, step)) by {
        reveal(rounds);
    }
    lemma_near_is_off_by_little(z, q, step);
}

/// Both carriers do.
proof fn lemma_step_sizes<S, M: SampleMath<S>>(
    m: &M,
    z: Numbers<S>,
    p: SsbParams<S>,
    rate: S,
    step_l: S,
    step_r: S,
)
    requires
        rounds(m, z),
        tame_params(m, z, p),
        (z.finite)(rate),
        (z.val)(rate) >= 8000real,
        left_step(m, p, rate, step_l),
        right_step(m, p, rate, step_r),
    ensures
        (z.finite)(step_l),
        size((z.val)(step_l)) <= 10real,
        (z.finite)(step_r),
        size((z.val)(step_r)) <= 10real,
{
    let hl = choose|hz: S| #[trigger] left_hz(m, p, hz) && turns_by(m, hz, rate, step_l);
    let half = choose|half: S|
        call_ensures(M::ratio, (m, 1i32, 2u32), half) && #[trigger] call_ensures(
            M::mul_add,
            (m, p.shift_hz, p.stereo_spread_hz, half),
            hl,
        );
    assert(near(z, (1 as int) as real / (2 as int) as real, half) && is_scale(z)) by {
        reveal(rounds);
    }
    lemma_near_is_off_by_little(z, 1real / 2real, half);
    let cap = 50001real / 100000real;
    lemma_product_size((z.val)(p.stereo_spread_hz), (z.val)(half), 2000real, cap);
    lemma_mul_add_size(m, z, p.shift_hz, p.stereo_spread_hz, half, hl, 2000real, 1001real);
    lemma_turn_size(m, z, hl, rate, step_l);
    let hr = choose|hz: S| #[trigger] right_hz(m, p, hz) && turns_by(m, hz, rate, step_r);
    let (h, off) = choose|half: S, off: S|
        call_ensures(M::ratio, (m, 1i32, 2u32), half) && #[trigger] call_ensures(
            M::prod,
            (m, p.stereo_spread_hz, half),
            off,
        ) && call_ensures(M::diff, (m, p.shift_hz, off), hr);
    assert(near(z, (1 as int) as real / (2 as int) as real, h)) by {
        reveal(rounds);
    }
    lemma_near_is_off_by_little(z, 1real / 2real, h);
    lemma_prod_size(m, z, p.stereo_spread_hz, h, off, 2000real, cap, 100002real / 100real);
    let ex = (z.val)(p.shift_hz) - (z.val)(off);
    assert(near(z, ex, hr)) by {
        reveal(rounds);
    }
    lemma_near_is_off_by_little(z, ex, hr);
    lemma_turn_size(m, z, hr, rate, step_r);
}

/// Whatever the setting, no more than 0.92 is fed back.
proof fn lemma_feedback_size<S, M: SampleMath<S>>(m: &M, z: Numbers<S>, p: SsbParams<S>, f: S)
    requires
        rounds(m, z),
        is_ordered(m, z, p.feedback),
        feedback_of(m, p, f),
    ensures
        (z.finite)(f),
        0real <= (z.val)(f) <= 9201real / 10000real,
{
    let (lo, hi) = choose|lo: S, hi: S|
        call_ensures(M::ratio, (m, 0i32, 1u32), lo) && call_ensures(
            M::ratio,
            (m, 92i32, 100u32),
            hi,
        ) && #[trigger] clamped(m, p.feedback, lo, hi, f);
    assert((z.finite)(lo) && (z.val)(lo) == 0real && is_scale(z) && near(
        z,
        (92 as int) as real / (100 as int) as real,
        hi,
    )) by {
        reveal(rounds);
    }
    lemma_near_is_off_by_little(z, 92real / 100real, hi);
    lemma_clamped_lies_within(m, z, p.feedback, lo, hi, f);
}

/// A shifter whose channels are tame.
#[verifier::opaque]
pub open spec fn tame_shifter<S: Copy, M: SampleMath<S>>(
    m: &M,
    z: Numbers<S>,
    s: SsbShifter<S>,
) -> bool {
    &&& ssb_built(m, s)
    &&& (z.finite)(s.rate())
    &&& (z.val)(s.rate()) >= 8000real
    &&& tame_state(z, s.left())
    &&& tame_state(z, s.right())
    &&& s.left().held.len() == HILBERT_TAPS
    &&& s.right().held.len() == HILBERT_TAPS
}

/// A new shifter at a rate of 8000 Hz or more is tame.
pub proof fn law_new_shifters_are_tame<S: Copy, M: SampleMath<S>>(
    m: &M,
    z: Numbers<S>,
    rate: S,
    s: SsbShifter<S>,
)
    requires
        rounds(m, z),
        (z.finite)(rate),
        (z.val)(rate) >= 8000real,
        ssb_made(m, rate, s),
    ensures
        tame_shifter(m, z, s),
{
    reveal(tame_shifter);
    let p = arbitrary::<SsbParams<S>>();
    let x = arbitrary::<S>();
    s.lemma_parts(p, x, x);
    let l = s.filters().0.zero();
    let r = s.filters().1.zero();
    assert((z.finite)(l) && (z.val)(l) == 0real && (z.finite)(r) && (z.val)(r) == 0real) by {
        reveal(rounds);
    }
}

/// The feedback loop stays bounded over a block of any length: a tame shifter that
/// is given samples of at most 1, with any feedback, gives samples of at most 24 and
/// stays tame. So what goes into its filters stays at most 2.85, and what is fed back
/// at most 2.001.
pub proof fn law_the_feedback_loop_stays_bounded<S: Copy, M: SampleMath<S>>(
    m: &M,
    z: Numbers<S>,
    p: SsbParams<S>,
    pre: SsbShifter<S>,
    in_l: Seq<S>,
    in_r: Seq<S>,
    out_l: Seq<S>,
    out_r: Seq<S>,
    post: SsbShifter<S>,
)
    requires
        rounds(m, z),
        one_turn::<S, M>(m),
        tame_params(m, z, p),
        tame_shifter(m, z, pre),
        are_inputs(z, in_l),
        are_inputs(z, in_r),
        ssb_block(m, p, pre, in_l, in_r, out_l, out_r, post),
    ensures
        are_outputs(z, out_l),
        are_outputs(z, out_r),
        tame_shifter(m, z, post),
{
    reveal(tame_shifter);
    let (f, sl, sr) = choose|f: S, sl: S, sr: S| #[trigger]
        ssb_block_by(m, p, pre, in_l, in_r, f, sl, sr, out_l, out_r, post);
    lemma_feedback_size(m, z, p, f);
    lemma_step_sizes(m, z, p, pre.rate(), sl, sr);
    pre.lemma_parts(p, f, sl);
    pre.lemma_parts(p, f, sr);
    lemma_taps_cap();
    lemma_taps_size(m, z, pre.filters().0, 63);
    lemma_taps_size(m, z, pre.filters().1, 63);
    let l = pre.filters().0.zero();
    let r = pre.filters().1.zero();
    assert((z.finite)(l) && (z.val)(l) == 0real && (z.finite)(r) && (z.val)(r) == 0real) by {
        reveal(rounds);
    }
    law_tame_channels_stay_tame(
        m,
        z,
        pre.left_tuning(p, f, sl),
        pre.left(),
        in_l,
        out_l,
        post.left(),
    );
    law_tame_channels_stay_tame(
        m,
        z,
        pre.right_tuning(p, f, sr),
        pre.right(),
        in_r,
        out_r,
        post.right(),
    );
}

/// One block of a run: its settings, what goes in and what comes out.
pub struct SsbBlock<S> {
    pub params: SsbParams<S>,
    pub in_l: Seq<S>,
    pub in_r: Seq<S>,
    pub out_l: Seq<S>,
    pub out_r: Seq<S>,
}

/// The block takes a shifter from one state to the next.
#[verifier::opaque]
pub open spec fn block_done<S: Copy, M: SampleMath<S>>(
    m: &M,
    pre: SsbShifter<S>,
    b: SsbBlock<S>,
    post: SsbShifter<S>,
) -> bool {
    ssb_block(m, b.params, pre, b.in_l, b.in_r, b.out_l, b.out_r, post)
}

/// What goes into the block is tame.
#[verifier::opaque]
pub open spec fn tame_block<S, M: SampleMath<S>>(m: &M, z: Numbers<S>, b: SsbBlock<S>) -> bool {
    &&& tame_params(m, z, b.params)
    &&& are_inputs(z, b.in_l)
    &&& are_inputs(z, b.in_r)
}

/// What comes out of the block is bounded.
#[verifier::opaque]
pub open spec fn bounded_block<S>(z: Numbers<S>, b: SsbBlock<S>) -> bool {
    &&& are_outputs(z, b.out_l)
    &&& are_outputs(z, b.out_r)
}

/// One block keeps a shifter tame.
proof fn lemma_block_stays_bounded<S: Copy, M: SampleMath<S>>(
    m: &M,
    z: Numbers<S>,
    pre: SsbShifter<S>,
    b: SsbBlock<S>,
    post: SsbShifter<S>,
)
    requires
        rounds(m, z),
        one_turn::<S, M>(m),
        tame_shifter(m, z, pre),
        tame_block(m, z, b),
        block_done(m, pre, b, post),
    ensures
        bounded_block(z, b),
        tame_shifter(m, z, post),
{
    reveal(block_done);
    reveal(tame_block);
    reveal(bounded_block);
    law_the_feedback_loop_stays_bounded(
        m,
        z,
        b.params,
        pre,
        b.in_l,
        b.in_r,
        b.out_l,
        b.out_r,
        post,
    );
}

/// The feedback loop stays bounded over any number of blocks: a new shifter at a rate
/// of 8000 Hz or more, given samples of at most 1 with settings that may change from
/// block to block, is tame before every block and after the last, and gives samples
/// of at most 24.
pub proof fn law_every_block_stays_bounded<S: Copy, M: SampleMath<S>>(
    m: &M,
    z: Numbers<S>,
    rate: S,
    states: Seq<SsbShifter<S>>,
    blocks: Seq<SsbBlock<S>>,
    k: int,
)
    requires
        rounds(m, z),
        one_turn::<S, M>(m),
        (z.finite)(rate),
        (z.val)(rate) >= 8000real,
        ssb_made(m, rate, states[0]),
        forall|j: int|
            #![trigger blocks[j]]
            0 <= j < blocks.len() ==> tame_block(m, z, blocks[j]) && block_done(
                m,
                states[j],
                blocks[j],
                states[j + 1],
            ),
        0 <= k <= blocks.len(),
    ensures
        tame_shifter(m, z, states[k]),
        k < blocks.len() ==> bounded_block(z, blocks[k]),
    decreases k,
{
    if k == 0 {
        law_new_shifters_are_tame(m, z, rate, states[0]);
    } else {
        let j = k - 1;
        law_every_block_stays_bounded(m, z, rate, states, blocks, j);
        lemma_block_stays_bounded(m, z, states[j], blocks[j], states[j + 1]);
    }
    if k < blocks.len() {
        lemma_block_stays_bounded(m, z, states[k], blocks[k], states[k + 1]);
    }
}

} // verus!
