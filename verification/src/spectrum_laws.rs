//! Where things stand in the picture of the spectrum, as numbers.

use vstd::prelude::*;

use crate::math::{clamped, DrawMath, SampleMath};
use crate::rounding::{
    is_scale, lemma_clamped_value, lemma_near_is_off_by_little, lemma_product_size, near, rounds,
    size, Numbers,
};
use crate::spectrum::{
    bar_frequency, bar_frequency_by, bar_hz, bin_width, higher, higher_of, in_view, in_view_by,
    lower, lower_of, place, placed, placed_by, shift_is_shown, shift_shown, tinted, view_range,
};
use crate::value_laws::lemma_half;
use crate::values::{
    about, lemma_cancel, lemma_count_about, lemma_diff_about, lemma_mul_add_about,
    lemma_prod_about, lemma_quot_times, lemma_quotient, lemma_whole_about, measures, off,
    off_product,
};

verus! {

/// `lg` is a logarithm to the base of ten: it rises, and it is from -3 to 6 between a
/// thousandth and a million. Logarithms and powers of ten follow it, and shares are
/// quotients.
pub open spec fn draws<S, M: DrawMath<S>>(
    m: &M,
    z: Numbers<S>,
    lg: spec_fn(real) -> real,
) -> bool {
    &&& forall|x: real, y: real|
        #![trigger lg(x), lg(y)]
        0real < x <= y ==> lg(x) <= lg(y)
    &&& forall|x: real|
        #![trigger lg(x)]
        1real / 1000real <= x <= 1000000real ==> -3real <= lg(x) <= 6real
    &&& forall|a: S, r: S|
        #![trigger call_ensures(M::log_ten, (m, a), r)]
        call_ensures(M::log_ten, (m, a), r) && (z.finite)(a) && 1real / 1000real <= (z.val)(a)
            <= 1000000real ==> about(z, r, lg((z.val)(a)), 1real / 100000real)
    &&& forall|a: S, r: S|
        #![trigger call_ensures(M::ten_to, (m, a), r)]
        call_ensures(M::ten_to, (m, a), r) && (z.finite)(a) && size((z.val)(a)) <= 10real ==> {
            &&& (z.finite)(r)
            &&& (z.val)(r) > 0real
            &&& size(lg((z.val)(r)) - (z.val)(a)) <= 1real / 100000real
        }
    &&& forall|i: usize, n: usize, r: S|
        #![trigger call_ensures(M::share, (m, i, n), r)]
        call_ensures(M::share, (m, i, n), r) && 1 <= n <= 1000000 && i <= 1000000 ==> {
            &&& (z.finite)(r)
            &&& size((z.val)(r) * ((n as int) as real) - (i as int) as real) <= ((n as int) as real)
                / 1000000real + ((i as int) as real) / 1000000real
        }
}

/// A share of at most one is about a quotient.
proof fn lemma_share_about<S, M: DrawMath<S>>(
    m: &M,
    z: Numbers<S>,
    lg: spec_fn(real) -> real,
    i: usize,
    n: usize,
    r: S,
    q: real,
)
    requires
        draws(m, z, lg),
        1 <= n <= 1000000,
        i <= n,
        q == (i as int) as real / ((n as int) as real),
        call_ensures(M::share, (m, i, n), r),
    ensures
        about(z, r, q, 2real / 1000000real),
        0real <= q <= 1real,
{
    let d = (n as int) as real;
    let x = (i as int) as real;
    let q1 = lemma_quotient(x, d);
    let v = (z.val)(r);
    let g = v - q;
    assert(g * d == v * d - q * d) by (nonlinear_arith)
        requires
            g == v - q,
    ;
    lemma_product_size(g, d, size(g), d);
    let sg = size(g);
    let e = 2real / 1000000real;
    assert(e * d == d / 500000real) by (nonlinear_arith)
        requires
            e == 2real / 1000000real,
    ;
    lemma_cancel(sg, e, d);
    assert(1real * d == d) by (nonlinear_arith);
    lemma_cancel(q, 1real, d);
    assert(0real * d == 0real) by (nonlinear_arith);
    lemma_cancel(0real, q, d);
}

/// The ends of a picture: from 1 Hz to a million.
pub open spec fn is_picture<S>(z: Numbers<S>, f_min: S, f_max: S) -> bool {
    &&& (z.finite)(f_min)
    &&& (z.finite)(f_max)
    &&& 1real <= (z.val)(f_min) <= (z.val)(f_max) <= 1000000real
}

/// The bars cover the picture evenly: bar `i` of `n` stands at the place `i / n` on
/// the logarithmic axis.
pub proof fn law_bars_stand_at_even_places<S: Copy, M: DrawMath<S>>(
    m: &M,
    z: Numbers<S>,
    lg: spec_fn(real) -> real,
    i: usize,
    n: usize,
    f_min: S,
    f_max: S,
    r: S,
)
    requires
        rounds(m, z),
        draws(m, z, lg),
        is_picture(z, f_min, f_max),
        1 <= n <= 1000000,
        i <= n,
        call_ensures(bar_hz::<S, M>, (m, i, n, f_min, f_max), r),
    ensures
        (z.finite)(r),
        (z.val)(r) > 0real,
        size(
            lg((z.val)(r)) - (lg((z.val)(f_min)) + ((i as int) as real / ((n as int) as real)) * (lg(
                (z.val)(f_max),
            ) - lg((z.val)(f_min)))),
        ) <= 1real / 5000real,
        i == 0 ==> size(lg((z.val)(r)) - lg((z.val)(f_min))) <= 1real / 5000real,
        i == n ==> size(lg((z.val)(r)) - lg((z.val)(f_max))) <= 1real / 5000real,
        lg((z.val)(f_min)) - 1real / 5000real <= lg((z.val)(r)) <= lg((z.val)(f_max)) + 1real
            / 5000real,
{
    lemma_bar_frequency_value(m, z, lg, i, n, f_min, f_max, r);
}

/// The same, of what the contract of [`bar_hz`] says.
proof fn lemma_bar_frequency_value<S, M: DrawMath<S>>(
    m: &M,
    z: Numbers<S>,
    lg: spec_fn(real) -> real,
    i: usize,
    n: usize,
    f_min: S,
    f_max: S,
    r: S,
)
    requires
        rounds(m, z),
        draws(m, z, lg),
        is_picture(z, f_min, f_max),
        1 <= n <= 1000000,
        i <= n,
        bar_frequency(m, i, n, f_min, f_max, r),
    ensures
        (z.finite)(r),
        (z.val)(r) > 0real,
        size(
            lg((z.val)(r)) - (lg((z.val)(f_min)) + ((i as int) as real / ((n as int) as real)) * (lg(
                (z.val)(f_max),
            ) - lg((z.val)(f_min)))),
        ) <= 1real / 5000real,
        i == 0 ==> size(lg((z.val)(r)) - lg((z.val)(f_min))) <= 1real / 5000real,
        i == n ==> size(lg((z.val)(r)) - lg((z.val)(f_max))) <= 1real / 5000real,
        lg((z.val)(f_min)) - 1real / 5000real <= lg((z.val)(r)) <= lg((z.val)(f_max)) + 1real
            / 5000real,
{
    let (lo, hi, share, span, log) = choose|lo: S, hi: S, share: S, span: S, log: S| #[trigger]
        bar_frequency_by(m, i, n, f_min, f_max, lo, hi, share, span, log, r);
    let l0 = lg((z.val)(f_min));
    let l1 = lg((z.val)(f_max));
    let e = 1real / 100000real;
    assert(about(z, lo, l0, e) && about(z, hi, l1, e));
    assert(-3real <= l0 <= l1 <= 6real);
    let q = (i as int) as real / ((n as int) as real);
    lemma_share_about(m, z, lg, i, n, share, q);
    lemma_diff_about(m, z, hi, lo, span, l1, e, l0, e);
    let d = l1 - l0;
    let es = 31real / 1000000real;
    assert(about(z, span, d, es));
    let eq = 2real / 1000000real;
    let e2 = 1real / 20000real;
    lemma_small_product(q, eq, d, es, e2);
    lemma_mul_add_about(m, z, lo, share, span, log, l0, e, q, eq, d, es, e2);
    let at = l0 + q * d;
    assert(about(z, log, at, 1real / 10000real));
    assert(i == 0 ==> q == 0real) by {
        let q1 = lemma_quotient((i as int) as real, (n as int) as real);
        if i == 0 {
            lemma_cancel(q, 0real, (n as int) as real);
        }
    }
    assert(i == n ==> q == 1real) by {
        let q1 = lemma_quotient((i as int) as real, (n as int) as real);
        if i == n {
            lemma_cancel(1real, q, (n as int) as real);
        }
    }
    assert(q == 0real ==> q * d == 0real) by (nonlinear_arith);
    assert(q == 1real ==> q * d == d) by (nonlinear_arith);
}

/// A product of a share and a span.
proof fn lemma_small_product(q: real, eq: real, d: real, es: real, e: real)
    requires
        0real <= q <= 1real,
        0real <= d <= 9real,
        eq == 2real / 1000000real,
        es == 31real / 1000000real,
        e == 1real / 20000real,
    ensures
        off_product(q, eq, d, es) <= e,
        0real <= q * d <= d,
        size(q * d) <= 9real,
{
    assert(eq * d <= 18real / 1000000real) by (nonlinear_arith)
        requires
            eq == 2real / 1000000real,
            d <= 9real,
    ;
    assert(q * es <= 31real / 1000000real) by (nonlinear_arith)
        requires
            es == 31real / 1000000real,
            q <= 1real,
    ;
    assert(eq * es <= 1real / 1000000real) by (nonlinear_arith)
        requires
            eq == 2real / 1000000real,
            es == 31real / 1000000real,
    ;
    assert(0real <= q * d <= d) by (nonlinear_arith)
        requires
            0real <= q <= 1real,
            0real <= d,
    ;
}

/// Twice as many bars, at twice the number: the bar stands where it stood.
pub proof fn law_twice_as_many_bars_stand_as_they_stood<S: Copy, M: DrawMath<S>>(
    m: &M,
    z: Numbers<S>,
    lg: spec_fn(real) -> real,
    i: usize,
    n: usize,
    i2: usize,
    n2: usize,
    f_min: S,
    f_max: S,
    r: S,
    r2: S,
)
    requires
        rounds(m, z),
        draws(m, z, lg),
        is_picture(z, f_min, f_max),
        1 <= n <= 500000,
        i <= n,
        i2 == 2 * i,
        n2 == 2 * n,
        call_ensures(bar_hz::<S, M>, (m, i, n, f_min, f_max), r),
        call_ensures(bar_hz::<S, M>, (m, i2, n2, f_min, f_max), r2),
    ensures
        size(lg((z.val)(r)) - lg((z.val)(r2))) <= 2real / 5000real,
{
    law_bars_stand_at_even_places(m, z, lg, i, n, f_min, f_max, r);
    law_bars_stand_at_even_places(m, z, lg, i2, n2, f_min, f_max, r2);
    let x = (i as int) as real;
    let d = (n as int) as real;
    let q = lemma_quotient(x, d);
    let q2 = lemma_quotient((i2 as int) as real, (n2 as int) as real);
    assert(q2 * (2real * d) == 2real * x);
    assert(q2 == q) by (nonlinear_arith)
        requires
            q2 * (2real * d) == 2real * x,
            q * d == x,
            d > 0real,
    ;
}

// -------------------------------------------------------------------- places

/// The lower and the higher of two samples.
pub proof fn law_lower_and_higher<S: Copy, M: SampleMath<S>>(
    m: &M,
    z: Numbers<S>,
    a: S,
    b: S,
    l: S,
    h: S,
)
    requires
        rounds(m, z),
        (z.finite)(a),
        (z.finite)(b),
        call_ensures(lower::<S, M>, (m, a, b), l),
        call_ensures(higher::<S, M>, (m, a, b), h),
    ensures
        (z.val)(l) <= (z.val)(a) && (z.val)(l) <= (z.val)(b),
        (z.val)(h) >= (z.val)(a) && (z.val)(h) >= (z.val)(b),
        l == a || l == b,
        h == a || h == b,
{
    lemma_lower_value(m, z, a, b, l);
    lemma_higher_value(m, z, a, b, h);
}

proof fn lemma_lower_value<S, M: SampleMath<S>>(m: &M, z: Numbers<S>, a: S, b: S, r: S)
    requires
        rounds(m, z),
        (z.finite)(a),
        (z.finite)(b),
        lower_of(m, a, b, r),
    ensures
        (z.finite)(r),
        r == a || r == b,
        (z.val)(r) <= (z.val)(a),
        (z.val)(r) <= (z.val)(b),
{
    reveal(rounds);
}

proof fn lemma_higher_value<S, M: SampleMath<S>>(m: &M, z: Numbers<S>, a: S, b: S, r: S)
    requires
        rounds(m, z),
        (z.finite)(a),
        (z.finite)(b),
        higher_of(m, a, b, r),
    ensures
        (z.finite)(r),
        r == a || r == b,
        (z.val)(r) >= (z.val)(a),
        (z.val)(r) >= (z.val)(b),
{
    reveal(rounds);
}

/// The picture goes from 30 Hz to half the sample rate, but not past 20 kHz.
pub proof fn law_the_picture_ends_at_half_the_rate<S: Copy, M: SampleMath<S>>(
    m: &M,
    z: Numbers<S>,
    rate: S,
    r: (S, S),
)
    requires
        rounds(m, z),
        (z.finite)(rate),
        0real <= (z.val)(rate) <= 400000real,
        call_ensures(view_range::<S, M>, (m, rate), r),
    ensures
        (z.val)(r.0) == 30real,
        (z.val)(r.1) <= 20000real,
        (z.val)(rate) >= 40002real ==> (z.val)(r.1) == 20000real,
        (z.val)(rate) <= 39998real ==> about(z, r.1, (z.val)(rate) / 2real, 1real),
        (z.val)(rate) <= 39998real ==> size((z.val)(r.1) * 2real - (z.val)(rate)) <= ((z.val)(
            rate,
        ) + 1real) / 100000real,
{
    let (share, half, cap) = choose|share: S, half: S, cap: S| #[trigger]
        in_view_by(m, rate, share, half, cap, r.0, r.1);
    lemma_whole_about(m, z, 30i32, r.0);
    lemma_whole_about(m, z, 20000i32, cap);
    lemma_half(m, z, share);
    let v = (z.val)(rate);
    let e = v / 1000000real;
    assert(off_product(v, 0real, 1real / 2real, 1real / 1000000real) == e) by (nonlinear_arith)
        requires
            e == v / 1000000real,
            v == size(v),
            off_product(v, 0real, 1real / 2real, 1real / 1000000real) == 0real * size(1real / 2real)
                + size(v) * (1real / 1000000real) + 0real * (1real / 1000000real),
    ;
    assert(v * (1real / 2real) == v / 2real) by (nonlinear_arith);
    lemma_prod_about(
        m,
        z,
        rate,
        share,
        half,
        v,
        0real,
        1real / 2real,
        1real / 1000000real,
        e,
    );
    lemma_lower_value(m, z, half, cap, r.1);
}

/// Two bins of a transform are the sample rate apart, divided by its size.
pub proof fn law_bins_share_the_rate<S: Copy, M: SampleMath<S>>(
    m: &M,
    z: Numbers<S>,
    rate: S,
    fft_size: usize,
    r: S,
)
    requires
        rounds(m, z),
        (z.finite)(rate),
        0real <= (z.val)(rate) <= 400000real,
        1 <= fft_size <= 1000000,
        call_ensures(bin_width::<S, M>, (m, rate, fft_size), r),
    ensures
        (z.finite)(r),
        size((z.val)(r) * ((fft_size as int) as real) - (z.val)(rate)) <= ((z.val)(rate) + (
        fft_size as int) as real) / 1000000real,
{
    let count = choose|count: S|
        call_ensures(M::count, (m, fft_size), count) && #[trigger] call_ensures(
            M::quot,
            (m, rate, count),
            r,
        );
    lemma_count_about(m, z, fft_size, count);
    lemma_quot_times(m, z, rate, count, r, (z.val)(rate), 0real);
}

/// A shift is shown if it is more than 1 Hz, up or down.
pub proof fn law_shifts_of_more_than_one_are_shown<S: Copy, M: SampleMath<S>>(
    m: &M,
    z: Numbers<S>,
    shift: S,
    shown: bool,
)
    requires
        rounds(m, z),
        measures(m, z),
        (z.finite)(shift),
        call_ensures(shift_is_shown::<S, M>, (m, shift), shown),
    ensures
        shown == (size((z.val)(shift)) > 1real),
{
    assert(shift_shown(m, shift, shown));
    reveal(rounds);
}

/// The part of a band that is in view starts where both start, and ends where the
/// first of the two ends.
pub proof fn law_what_is_tinted_is_in_view<S: Copy, M: SampleMath<S>>(
    m: &M,
    z: Numbers<S>,
    band: (S, S, S),
    f_min: S,
    f_max: S,
    r: (S, S),
)
    requires
        rounds(m, z),
        (z.finite)(band.0),
        (z.finite)(band.1),
        (z.finite)(f_min),
        (z.finite)(f_max),
        call_ensures(tinted::<S, M>, (m, band, f_min, f_max), r),
    ensures
        forall|f: real|
            (#[trigger] is_between((z.val)(r.0), f, (z.val)(r.1))) == (is_between(
                (z.val)(band.0),
                f,
                (z.val)(band.1),
            ) && is_between((z.val)(f_min), f, (z.val)(f_max))),
{
    lemma_higher_value(m, z, band.0, f_min, r.0);
    lemma_lower_value(m, z, band.1, f_max, r.1);
}

/// `f` lies from `lo` to `hi`.
pub open spec fn is_between(lo: real, f: real, hi: real) -> bool {
    lo <= f <= hi
}

/// What is held to the range from 0 to 1 stays about the share that it was.
proof fn lemma_held_share(raw: real, r: real, d: real, g: real, e: real)
    requires
        d >= 1real,
        size(raw * d - g) <= e,
        0real <= e,
        r == if raw < 0real {
            0real
        } else if raw > 1real {
            1real
        } else {
            raw
        },
    ensures
        0real <= g <= d ==> size(r * d - g) <= e,
        g <= 0real ==> r <= e,
        g >= d ==> r >= 1real - e,
        0real <= r <= 1real,
{
    assert(raw < 0real ==> raw * d < 0real) by (nonlinear_arith)
        requires
            d >= 1real,
    ;
    assert(raw > 1real ==> raw * d > d) by (nonlinear_arith)
        requires
            d >= 1real,
    ;
    assert(raw >= 0real ==> raw <= raw * d) by (nonlinear_arith)
        requires
            d >= 1real,
    ;
    assert(raw <= 1real ==> d - raw * d >= 1real - raw) by (nonlinear_arith)
        requires
            d >= 1real,
    ;
    assert(0real * d == 0real && 1real * d == d) by (nonlinear_arith);
}

/// A frequency stands in the picture as far along as its logarithm is on the way from
/// one end to the other; past either end, at the edge.
pub proof fn law_frequencies_stand_by_their_logarithm<S: Copy, M: DrawMath<S>>(
    m: &M,
    z: Numbers<S>,
    lg: spec_fn(real) -> real,
    f: S,
    f_min: S,
    f_max: S,
    r: S,
)
    requires
        rounds(m, z),
        draws(m, z, lg),
        is_picture(z, f_min, f_max),
        lg((z.val)(f_max)) - lg((z.val)(f_min)) >= 1real,
        (z.finite)(f),
        1real <= (z.val)(f) <= 1000000real,
        call_ensures(place::<S, M>, (m, f, f_min, f_max), r),
    ensures
        (z.finite)(r),
        0real <= (z.val)(r) <= 1real,
        (z.val)(f_min) <= (z.val)(f) <= (z.val)(f_max) ==> size(
            (z.val)(r) * (lg((z.val)(f_max)) - lg((z.val)(f_min))) - (lg((z.val)(f)) - lg(
                (z.val)(f_min),
            )),
        ) <= 1real / 1000real,
        (z.val)(f) <= (z.val)(f_min) ==> (z.val)(r) <= 1real / 1000real,
        (z.val)(f) >= (z.val)(f_max) ==> (z.val)(r) >= 1real - 1real / 1000real,
{
    let (least, held, log, lo, hi, gone, span, raw, zero, one) = choose|
        least: S,
        held: S,
        log: S,
        lo: S,
        hi: S,
        gone: S,
        span: S,
        raw: S,
        zero: S,
        one: S,
    | #[trigger]
        placed_by(m, f, f_min, f_max, least, held, log, lo, hi, gone, span, raw, zero, one, r);
    lemma_half(m, z, least);
    assert(held == f) by {
        reveal(rounds);
    }
    let l = lg((z.val)(f));
    let l0 = lg((z.val)(f_min));
    let l1 = lg((z.val)(f_max));
    let e = 1real / 100000real;
    assert(about(z, log, l, e) && about(z, lo, l0, e) && about(z, hi, l1, e));
    assert(-3real <= l <= 6real && -3real <= l0 <= l1 <= 6real);
    lemma_diff_about(m, z, log, lo, gone, l, e, l0, e);
    lemma_diff_about(m, z, hi, lo, span, l1, e, l0, e);
    let g = l - l0;
    let d = l1 - l0;
    let es = 31real / 1000000real;
    assert(about(z, gone, g, es) && about(z, span, d, es));
    lemma_quot_times(m, z, gone, span, raw, g, es);
    let s = (z.val)(span);
    let v = (z.val)(raw);
    lemma_share_of_span(v, s, d, g);
    lemma_whole_about(m, z, 0i32, zero);
    lemma_whole_about(m, z, 1i32, one);
    lemma_clamped_value(m, z, raw, zero, one, r);
    lemma_held_share(v, (z.val)(r), d, g, 1real / 1000real);
}

/// A share of a span that is only about right.
proof fn lemma_share_of_span(v: real, s: real, d: real, g: real)
    requires
        1real <= d <= 9real,
        size(s - d) <= 31real / 1000000real,
        size(g) <= 9real,
        size(v * s - g) <= 1real / 20000real,
    ensures
        size(v * d - g) <= 1real / 1000real,
{
    lemma_product_size(v, s, size(v), s);
    let sv = size(v);
    assert(sv <= 11real) by (nonlinear_arith)
        requires
            sv * s <= 10real,
            s >= 95real / 100real,
            sv >= 0real,
    ;
    lemma_product_size(v, d - s, 11real, 31real / 1000000real);
    assert(11real * (31real / 1000000real) <= 400real / 1000000real) by (nonlinear_arith);
    assert(v * (d - s) == v * d - v * s) by (nonlinear_arith);
}

} // verus!
