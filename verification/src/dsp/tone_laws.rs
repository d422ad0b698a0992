//! What carriers and phases do to tones, as numbers.

use vstd::prelude::*;

use crate::dsp::spectral::{overlapped, overlapped_by};
use crate::dsp::ssb::{modulate, sidebands_by};
use crate::math::{hann, hann_at_by, BinMath, SampleMath};
use crate::rounding::{lemma_product_size, one_turn, rounds, size, Numbers};
use crate::value_laws::lemma_half;
use crate::values::{
    about, lemma_cancel, lemma_count_about, lemma_diff_about, lemma_prod_about, lemma_quot_times,
    lemma_sum_about, off, off_product,
};

verus! {

/// The sine and the cosine of a number.
pub struct Waves {
    pub sin: spec_fn(real) -> real,
    pub cos: spec_fn(real) -> real,
}

/// `w` are a sine and a cosine: at most 1, and a cosine does not change faster than its
/// angle.
pub open spec fn is_circle(w: Waves) -> bool {
    &&& (w.sin)(0real) == 0real
    &&& (w.cos)(0real) == 1real
    &&& forall|x: real|
        #![trigger (w.sin)(x)]
        #![trigger (w.cos)(x)]
        size((w.sin)(x)) <= 1real && size((w.cos)(x)) <= 1real
    &&& forall|x: real, y: real|
        #![trigger (w.cos)(x), (w.cos)(y)]
        size((w.cos)(x) - (w.cos)(y)) <= size(x - y)
}

/// The cosine of a sum and of a difference.
pub open spec fn adds_angles(w: Waves, a: real, b: real) -> bool {
    &&& (w.cos)(a + b) == (w.cos)(a) * (w.cos)(b) - (w.sin)(a) * (w.sin)(b)
    &&& (w.cos)(a - b) == (w.cos)(a) * (w.cos)(b) + (w.sin)(a) * (w.sin)(b)
    &&& (w.sin)(a + b) == (w.sin)(a) * (w.cos)(b) + (w.cos)(a) * (w.sin)(b)
}

/// Computed sines and cosines follow `w`, for angles of up to a thousand.
pub open spec fn waves<S, M: SampleMath<S>>(m: &M, z: Numbers<S>, w: Waves) -> bool {
    &&& is_circle(w)
    &&& forall|a: S, r: S|
        #![trigger call_ensures(M::cosine, (m, a), r)]
        call_ensures(M::cosine, (m, a), r) && (z.finite)(a) && size((z.val)(a)) <= 1000real
            ==> about(z, r, (w.cos)((z.val)(a)), 1real / 1000000real)
    &&& forall|a: S, r: (S, S)|
        #![trigger call_ensures(M::sin_cos, (m, a), r)]
        call_ensures(M::sin_cos, (m, a), r) && (z.finite)(a) && size((z.val)(a)) <= 1000real ==> {
            &&& about(z, r.0, (w.sin)((z.val)(a)), 1real / 1000000real)
            &&& about(z, r.1, (w.cos)((z.val)(a)), 1real / 1000000real)
        }
}

/// A sample times a sine or a cosine.
proof fn lemma_times_wave<S, M: SampleMath<S>>(
    m: &M,
    z: Numbers<S>,
    a: S,
    b: S,
    r: S,
    y: real,
)
    requires
        rounds(m, z),
        (z.finite)(a),
        size((z.val)(a)) <= 100000real,
        about(z, b, y, 1real / 1000000real),
        size(y) <= 1real,
        call_ensures(M::prod, (m, a, b), r),
    ensures
        about(z, r, (z.val)(a) * y, (size((z.val)(a)) + 1real) / 400000real),
        size((z.val)(a) * y) <= size((z.val)(a)),
{
    let x = (z.val)(a);
    let sx = size(x);
    let e = sx / 1000000real;
    assert(off_product(x, 0real, y, 1real / 1000000real) == e) by (nonlinear_arith)
        requires
            sx == size(x),
            e == sx / 1000000real,
            off_product(x, 0real, y, 1real / 1000000real) == 0real * size(y) + size(x) * (1real
                / 1000000real) + 0real * (1real / 1000000real),
    ;
    lemma_product_size(x, y, sx, 1real);
    assert(sx * 1real == sx);
    lemma_prod_about(m, z, a, b, r, x, 0real, y, 1real / 1000000real, e);
}

/// The sidebands of an analytic pair: the upper one is its real part turned forward
/// by the phase of the carrier, the lower one turned back.
pub proof fn law_sidebands_are_turned_both_ways<S: Copy, M: SampleMath<S>>(
    m: &M,
    z: Numbers<S>,
    w: Waves,
    re: S,
    im: S,
    phase: S,
    bands: (S, S),
)
    requires
        rounds(m, z),
        waves(m, z, w),
        (z.finite)(re),
        (z.finite)(im),
        (z.finite)(phase),
        size((z.val)(re)) <= 1000real,
        size((z.val)(im)) <= 1000real,
        size((z.val)(phase)) <= 1000real,
        call_ensures(modulate::<S, M>, (m, re, im, phase), bands),
    ensures
        about(
            z,
            bands.0,
            (z.val)(re) * (w.cos)((z.val)(phase)) - (z.val)(im) * (w.sin)((z.val)(phase)),
            (size((z.val)(re)) + size((z.val)(im)) + 2real) / 100000real,
        ),
        about(
            z,
            bands.1,
            (z.val)(re) * (w.cos)((z.val)(phase)) + (z.val)(im) * (w.sin)((z.val)(phase)),
            (size((z.val)(re)) + size((z.val)(im)) + 2real) / 100000real,
        ),
{
    let (sin, cos, i, q) = choose|sin: S, cos: S, i: S, q: S| #[trigger]
        sidebands_by(m, re, im, phase, sin, cos, i, q, bands.0, bands.1);
    let p = (z.val)(phase);
    let c = (w.cos)(p);
    let s = (w.sin)(p);
    assert(about(z, (sin, cos).0, s, 1real / 1000000real));
    assert(about(z, (sin, cos).1, c, 1real / 1000000real));
    lemma_times_wave(m, z, re, cos, i, c);
    lemma_times_wave(m, z, im, sin, q, s);
    let x = (z.val)(re) * c;
    let y = (z.val)(im) * s;
    let ex = (size((z.val)(re)) + 1real) / 400000real;
    let ey = (size((z.val)(im)) + 1real) / 400000real;
    lemma_diff_about(m, z, i, q, bands.0, x, ex, y, ey);
    lemma_sum_about(m, z, i, q, bands.1, x, ex, y, ey);
}

/// A tone at the angle `theta` goes up by the carrier in the upper sideband, and down
/// by it in the lower one.
pub proof fn law_a_tone_goes_up_and_down<S: Copy, M: SampleMath<S>>(
    m: &M,
    z: Numbers<S>,
    w: Waves,
    a: real,
    theta: real,
    re: S,
    im: S,
    phase: S,
    bands: (S, S),
)
    requires
        rounds(m, z),
        waves(m, z, w),
        adds_angles(w, theta, (z.val)(phase)),
        (z.finite)(re),
        (z.finite)(im),
        (z.finite)(phase),
        size(a) <= 1000real,
        (z.val)(re) == a * (w.cos)(theta),
        (z.val)(im) == a * (w.sin)(theta),
        size((z.val)(phase)) <= 1000real,
        call_ensures(modulate::<S, M>, (m, re, im, phase), bands),
    ensures
        about(z, bands.0, a * (w.cos)(theta + (z.val)(phase)), (2real * size(a) + 2real) / 100000real),
        about(z, bands.1, a * (w.cos)(theta - (z.val)(phase)), (2real * size(a) + 2real) / 100000real),
{
    let ct = (w.cos)(theta);
    let st = (w.sin)(theta);
    assert(size(st) <= 1real && size(ct) <= 1real);
    lemma_product_size(a, ct, size(a), 1real);
    lemma_product_size(a, st, size(a), 1real);
    assert(size(a) * 1real == size(a));
    law_sidebands_are_turned_both_ways(m, z, w, re, im, phase, bands);
    let c = (w.cos)((z.val)(phase));
    let s = (w.sin)((z.val)(phase));
    lemma_tone(a, ct, st, c, s);
}

/// A tone through a carrier.
proof fn lemma_tone(a: real, ct: real, st: real, c: real, s: real)
    ensures
        (a * ct) * c - (a * st) * s == a * (ct * c - st * s),
        (a * ct) * c + (a * st) * s == a * (ct * c + st * s),
{
    assert((a * ct) * c == a * (ct * c)) by (nonlinear_arith);
    assert((a * st) * s == a * (st * s)) by (nonlinear_arith);
    let x = ct * c;
    let y = st * s;
    assert(a * (x - y) == a * x - a * y) by (nonlinear_arith);
    assert(a * (x + y) == a * x + a * y) by (nonlinear_arith);
}

/// The Hann window at `k`, where `angle` is the share of a turn that `k` is of the
/// period: half of one less the cosine of it. At 0 there is nothing.
pub proof fn law_the_window_is_half_of_one_less_a_cosine<S: Copy, M: SampleMath<S>>(
    m: &M,
    z: Numbers<S>,
    w: Waves,
    k: usize,
    period: usize,
    turn: S,
    angle: real,
    r: S,
)
    requires
        rounds(m, z),
        waves(m, z, w),
        one_turn::<S, M>(m),
        call_ensures(M::full_turn, (m,), turn),
        k <= period,
        1 <= period <= 4096,
        angle * ((period as int) as real) == (z.val)(turn) * ((k as int) as real),
        call_ensures(hann::<S, M>, (m, k, period), r),
    ensures
        about(z, r, (1real - (w.cos)(angle)) / 2real, 1real / 10000real),
        k == 0 ==> about(z, r, 0real, 1real / 10000real),
{
    let (half, t, at, along, span, an, cos, dip) = choose|
        half: S,
        turn: S,
        at: S,
        along: S,
        span: S,
        angle: S,
        cos: S,
        dip: S,
    | #[trigger]
        hann_at_by(m, k, period, half, turn, at, along, span, angle, cos, dip, r);
    assert(t == turn);
    lemma_window_angle(m, z, k, period, turn, at, along, span, an, angle);
    let c = (w.cos)((z.val)(an));
    let c1 = (w.cos)(angle);
    assert(size(c - c1) <= size((z.val)(an) - angle));
    lemma_half(m, z, half);
    let e = 3real / 1000000real;
    lemma_half_product(c);
    assert(about(z, cos, c, 1real / 1000000real));
    lemma_prod_about(
        m,
        z,
        half,
        cos,
        dip,
        1real / 2real,
        1real / 1000000real,
        c,
        1real / 1000000real,
        e,
    );
    let ed = e + off(1real + e);
    lemma_diff_about(m, z, half, dip, r, 1real / 2real, 1real / 1000000real, c / 2real, ed);
    if k == 0 {
        let n = (period as int) as real;
        let tv = (z.val)(turn);
        assert(tv * 0real == 0real) by (nonlinear_arith);
        assert(angle == 0real) by (nonlinear_arith)
            requires
                angle * n == 0real,
                n >= 1real,
        ;
    }
}

/// One half times a cosine.
proof fn lemma_half_product(c: real)
    requires
        size(c) <= 1real,
    ensures
        off_product(1real / 2real, 1real / 1000000real, c, 1real / 1000000real) <= 3real / 1000000real,
        (1real / 2real) * c == c / 2real,
        size((1real / 2real) * c) <= 1real,
{
    let u = 1real / 1000000real;
    let sc = size(c);
    assert(u * sc <= u) by (nonlinear_arith)
        requires
            sc <= 1real,
            u == 1real / 1000000real,
    ;
    assert(u * u <= u) by (nonlinear_arith)
        requires
            u == 1real / 1000000real,
    ;
    assert((1real / 2real) * c == c / 2real) by (nonlinear_arith);
    assert((1real / 2real) * u == u / 2real) by (nonlinear_arith);
}

/// The angle that the window is taken at.
proof fn lemma_window_angle<S, M: SampleMath<S>>(
    m: &M,
    z: Numbers<S>,
    k: usize,
    period: usize,
    turn: S,
    at: S,
    along: S,
    span: S,
    an: S,
    angle: real,
)
    requires
        rounds(m, z),
        call_ensures(M::full_turn, (m,), turn),
        k <= period,
        1 <= period <= 4096,
        angle * ((period as int) as real) == (z.val)(turn) * ((k as int) as real),
        call_ensures(M::count, (m, k), at),
        call_ensures(M::prod, (m, turn, at), along),
        call_ensures(M::count, (m, period), span),
        call_ensures(M::quot, (m, along, span), an),
    ensures
        about(z, an, angle, 1real / 50000real),
        size((z.val)(an)) <= 10real,
{
    lemma_count_about(m, z, k, at);
    lemma_count_about(m, z, period, span);
    assert((z.finite)(turn) && 628real / 100real <= (z.val)(turn) <= 629real / 100real) by {
        reveal(rounds);
    }
    let t = (z.val)(turn);
    let x = (k as int) as real;
    let n = (period as int) as real;
    lemma_product_size(t, x, 629real / 100real, n);
    let y = t * x;
    assert(off_product(t, 0real, x, 0real) == 0real) by (nonlinear_arith)
        requires
            off_product(t, 0real, x, 0real) == 0real * size(x) + size(t) * 0real + 0real * 0real,
    ;
    lemma_prod_about(m, z, turn, at, along, t, 0real, x, 0real, 0real);
    lemma_quot_times(m, z, along, span, an, y, off(size(y)));
    let v = (z.val)(an);
    let d = v - angle;
    assert(d * n == v * n - angle * n) by (nonlinear_arith)
        requires
            d == v - angle,
    ;
    lemma_product_size(d, n, size(d), n);
    lemma_product_size(angle, n, size(angle), n);
    let e = 1real / 50000real;
    assert(e * n == n / 50000real) by (nonlinear_arith)
        requires
            e == 1real / 50000real,
    ;
    let sd = size(d);
    lemma_cancel(sd, e, n);
    let sa = size(angle);
    lemma_cancel(sa, 629real / 100real, n);
}

// ---------------------------------------------------------------------- frames

/// What is laid over a pending sample: the real part, its share, under the window,
/// scaled.
pub proof fn law_overlapping_adds_the_scaled_real_part<S, C, M: BinMath<S, C>>(
    m: &M,
    z: Numbers<S>,
    before: S,
    c: C,
    share: S,
    w: S,
    cola: S,
    re: S,
    r: S,
)
    requires
        rounds(m, z),
        forall|s: S| #[trigger] call_ensures(M::bin_re, (m, c), s) ==> s == re,
        (z.finite)(before),
        size((z.val)(before)) <= 100real,
        (z.finite)(re),
        size((z.val)(re)) <= 10000real,
        (z.finite)(share),
        size((z.val)(share)) <= 1real,
        (z.finite)(w),
        size((z.val)(w)) <= 1real,
        (z.finite)(cola),
        size((z.val)(cola)) <= 2real,
        overlapped(m, before, c, share, w, cola, r),
    ensures
        about(
            z,
            r,
            (z.val)(before) + (((z.val)(re) * (z.val)(share)) * (z.val)(w)) * (z.val)(cola),
            (size((z.val)(before)) + size((z.val)(re)) + 1real) / 50000real,
        ),
{
    let (e, normal, shaped, scaled) = choose|re: S, normal: S, shaped: S, scaled: S| #[trigger]
        overlapped_by(m, before, c, share, w, cola, re, normal, shaped, scaled, r);
    assert(e == re);
    let x = (z.val)(re);
    let sx = size(x);
    let e1 = off(sx);
    lemma_scaled(m, z, re, share, normal, x, 0real, sx, 1real);
    let y = x * (z.val)(share);
    lemma_scaled(m, z, normal, w, shaped, y, 0real + off(sx + 0real), sx, 1real);
    let v = y * (z.val)(w);
    let e2 = off(sx) + off(sx + off(sx));
    lemma_scaled(m, z, shaped, cola, scaled, v, e2, sx, 2real);
    let u = v * (z.val)(cola);
    let e3 = 2real * e2 + off(2real * sx + 2real * e2);
    lemma_sum_about(m, z, before, scaled, r, (z.val)(before), 0real, u, e3);
}

/// A sample, scaled by at most `cap`.
proof fn lemma_scaled<S, M: SampleMath<S>>(
    m: &M,
    z: Numbers<S>,
    a: S,
    b: S,
    r: S,
    x: real,
    ea: real,
    most: real,
    cap: real,
)
    requires
        rounds(m, z),
        about(z, a, x, ea),
        0real <= ea <= 1real,
        size(x) <= most <= 20000real,
        (z.finite)(b),
        size((z.val)(b)) <= cap,
        1real <= cap <= 2real,
        call_ensures(M::prod, (m, a, b), r),
    ensures
        about(z, r, x * (z.val)(b), cap * ea + off(cap * most + cap * ea)),
        size(x * (z.val)(b)) <= cap * most,
{
    let y = (z.val)(b);
    let e = cap * ea;
    let sy = size(y);
    assert(off_product(x, ea, y, 0real) <= e) by (nonlinear_arith)
        requires
            e == cap * ea,
            sy == size(y),
            sy <= cap,
            ea >= 0real,
            off_product(x, ea, y, 0real) == ea * size(y) + size(x) * 0real + ea * 0real,
    ;
    lemma_product_size(x, y, most, cap);
    assert(most * cap == cap * most) by (nonlinear_arith);
    assert(cap * most <= 40000real) by (nonlinear_arith)
        requires
            0real <= most <= 20000real,
            1real <= cap <= 2real,
    ;
    assert(cap * ea <= 2real) by (nonlinear_arith)
        requires
            0real <= ea <= 1real,
            1real <= cap <= 2real,
    ;
    lemma_prod_about(m, z, a, b, r, x, ea, y, 0real, e);
}

} // verus!
