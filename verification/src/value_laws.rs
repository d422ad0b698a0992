//! What the small formulas are worth, where arithmetic rounds.

use vstd::prelude::*;

use crate::math::{
    blend, blended, blended_by, clamp_sample, phase_step, rate_changed, rates_apart,
    rates_apart_by, SampleMath,
};
use crate::rounding::{
    is_scale, lemma_clamped_value, lemma_near_is_off_by_little, near, one_turn, rounds, size,
    Numbers,
};
use crate::repeat::repeatable;
use crate::values::{
    about, lemma_diff_about, lemma_mul_add_about, lemma_prod_about, lemma_quot_times,
    lemma_whole_about, measures, off, off_product,
};

verus! {

// ---------------------------------------------------------------------- rates

/// Two sample rates that are more than half a hertz apart are told apart, whichever
/// is the higher, and two that are less than half a hertz apart are not.
pub proof fn law_rates_are_told_apart<S: Copy, M: SampleMath<S>>(
    m: &M,
    z: Numbers<S>,
    a: S,
    b: S,
    r: bool,
)
    requires
        rounds(m, z),
        measures(m, z),
        (z.finite)(a),
        (z.finite)(b),
        size((z.val)(a)) <= 400000real,
        size((z.val)(b)) <= 400000real,
        call_ensures(rate_changed::<S, M>, (m, a, b), r),
    ensures
        (z.val)(a) - (z.val)(b) >= 501real / 1000real ==> r,
        (z.val)(b) - (z.val)(a) >= 501real / 1000real ==> r,
        size((z.val)(a) - (z.val)(b)) <= 499real / 1000real ==> !r,
{
    lemma_rates_apart_value(m, z, a, b, r);
}

/// The same, of what the contract of [`rate_changed`] says.
pub proof fn lemma_rates_apart_value<S, M: SampleMath<S>>(
    m: &M,
    z: Numbers<S>,
    a: S,
    b: S,
    r: bool,
)
    requires
        rounds(m, z),
        measures(m, z),
        (z.finite)(a),
        (z.finite)(b),
        size((z.val)(a)) <= 400000real,
        size((z.val)(b)) <= 400000real,
        rates_apart(m, a, b, r),
    ensures
        size((z.val)(a) - (z.val)(b)) >= 501real / 1000real ==> r,
        size((z.val)(a) - (z.val)(b)) <= 499real / 1000real ==> !r,
{
    let (half, d, gap) = choose|half: S, d: S, gap: S| #[trigger]
        rates_apart_by(m, a, b, half, d, gap, r);
    lemma_diff_about(m, z, a, b, d, (z.val)(a), 0real, (z.val)(b), 0real);
    lemma_half(m, z, half);
    assert(r == ((z.val)(half) < (z.val)(gap))) by {
        reveal(rounds);
    }
}

/// One half.
pub proof fn lemma_half<S, M: SampleMath<S>>(m: &M, z: Numbers<S>, half: S)
    requires
        rounds(m, z),
        call_ensures(M::ratio, (m, 1i32, 2u32), half),
    ensures
        about(z, half, 1real / 2real, 1real / 1000000real),
{
    assert(near(z, (1 as int) as real / (2 as int) as real, half) && is_scale(z)) by {
        reveal(rounds);
    }
    lemma_near_is_off_by_little(z, 1real / 2real, half);
}

/// Taking one from the other either way round gives results of the same magnitude.
pub open spec fn gaps_are_even<S, M: SampleMath<S>>(m: &M) -> bool {
    forall|a: S, b: S, d: S, e: S, g: S, h: S|
        #![trigger call_ensures(M::diff, (m, a, b), d), call_ensures(M::diff, (m, b, a), e), call_ensures(M::magnitude, (m, d), g), call_ensures(M::magnitude, (m, e), h)]
        call_ensures(M::diff, (m, a, b), d) && call_ensures(M::diff, (m, b, a), e)
            && call_ensures(M::magnitude, (m, d), g) && call_ensures(M::magnitude, (m, e), h)
            ==> g == h
}

/// Whether two rates are told apart does not depend on which one comes first.
pub proof fn law_telling_rates_apart_is_even<S: Copy, M: SampleMath<S>>(
    m: &M,
    a: S,
    b: S,
    r: bool,
    s: bool,
)
    requires
        repeatable::<S, M>(m),
        gaps_are_even::<S, M>(m),
        call_ensures(rate_changed::<S, M>, (m, a, b), r),
        call_ensures(rate_changed::<S, M>, (m, b, a), s),
    ensures
        r == s,
{
    let (half, d, gap) = choose|half: S, d: S, gap: S| #[trigger]
        rates_apart_by(m, a, b, half, d, gap, r);
    let (half1, d1, gap1) = choose|half: S, d: S, gap: S| #[trigger]
        rates_apart_by(m, b, a, half, d, gap, s);
    assert(half == half1);
    assert(gap == gap1);
}

/// `rate` is the one that was asked for, up to half a hertz.
pub open spec fn rate_follows<S, M: SampleMath<S>>(m: &M, asked: S, before: S, rate: S) -> bool {
    forall|z: Numbers<S>| #[trigger]
        rounds(m, z) && measures(m, z) && (z.finite)(asked) && (z.finite)(before) && size(
            (z.val)(asked),
        ) <= 400000real && size((z.val)(before)) <= 400000real ==> size(
            (z.val)(rate) - (z.val)(asked),
        ) <= 501real / 1000real
}

/// A rate that is taken on where it is told apart follows what was asked for.
pub proof fn lemma_rate_follows<S, M: SampleMath<S>>(
    m: &M,
    asked: S,
    before: S,
    rate: S,
    changed: bool,
)
    requires
        rates_apart(m, asked, before, changed),
        rate == if changed {
            asked
        } else {
            before
        },
    ensures
        rate_follows(m, asked, before, rate),
{
    assert forall|z: Numbers<S>| #[trigger]
        rounds(m, z) && measures(m, z) && (z.finite)(asked) && (z.finite)(before) && size(
            (z.val)(asked),
        ) <= 400000real && size((z.val)(before)) <= 400000real implies size(
        (z.val)(rate) - (z.val)(asked),
    ) <= 501real / 1000real by {
        lemma_rates_apart_value(m, z, asked, before, changed);
    }
}

// ------------------------------------------------------------------ formulas

/// What is held to a range is worth what is held to the range.
pub proof fn law_clamped_samples_are_held<S: Copy, M: SampleMath<S>>(
    m: &M,
    z: Numbers<S>,
    x: S,
    lo: S,
    hi: S,
    r: S,
)
    requires
        rounds(m, z),
        (z.finite)(x),
        (z.finite)(lo),
        (z.finite)(hi),
        (z.val)(lo) <= (z.val)(hi),
        call_ensures(clamp_sample::<S, M>, (m, x, lo, hi), r),
    ensures
        (z.val)(lo) <= (z.val)(r) <= (z.val)(hi),
        (z.val)(lo) <= (z.val)(x) <= (z.val)(hi) ==> r == x || (z.val)(r) == (z.val)(x),
        (z.val)(x) <= (z.val)(lo) ==> (z.val)(r) == (z.val)(lo),
        (z.val)(x) >= (z.val)(hi) ==> (z.val)(r) == (z.val)(hi),
{
    lemma_clamped_value(m, z, x, lo, hi, r);
}

/// A blend lies between its two sides as far as `mix` says: at 0 it is `dry`, at 1 it
/// is `wet`.
pub proof fn law_a_blend_lies_between<S: Copy, M: SampleMath<S>>(
    m: &M,
    z: Numbers<S>,
    mix: S,
    dry: S,
    wet: S,
    r: S,
)
    requires
        rounds(m, z),
        (z.finite)(mix),
        0real <= (z.val)(mix) <= 1real,
        (z.finite)(dry),
        size((z.val)(dry)) <= 1000real,
        (z.finite)(wet),
        size((z.val)(wet)) <= 1000real,
        call_ensures(blend::<S, M>, (m, mix, dry, wet), r),
    ensures
        about(
            z,
            r,
            (z.val)(dry) + (z.val)(mix) * ((z.val)(wet) - (z.val)(dry)),
            (size((z.val)(dry)) + size((z.val)(wet)) + 1real) / 100000real,
        ),
        (z.val)(mix) == 0real ==> about(
            z,
            r,
            (z.val)(dry),
            (size((z.val)(dry)) + size((z.val)(wet)) + 1real) / 100000real,
        ),
        (z.val)(mix) == 1real ==> about(
            z,
            r,
            (z.val)(wet),
            (size((z.val)(dry)) + size((z.val)(wet)) + 1real) / 100000real,
        ),
{
    lemma_blended_value(m, z, mix, dry, wet, r);
}

/// The same, of what the contract of [`blend`] says.
pub proof fn lemma_blended_value<S, M: SampleMath<S>>(
    m: &M,
    z: Numbers<S>,
    mix: S,
    dry: S,
    wet: S,
    r: S,
)
    requires
        rounds(m, z),
        (z.finite)(mix),
        0real <= (z.val)(mix) <= 1real,
        (z.finite)(dry),
        size((z.val)(dry)) <= 1000real,
        (z.finite)(wet),
        size((z.val)(wet)) <= 1000real,
        blended(m, mix, dry, wet, r),
    ensures
        about(
            z,
            r,
            (z.val)(dry) + (z.val)(mix) * ((z.val)(wet) - (z.val)(dry)),
            (size((z.val)(dry)) + size((z.val)(wet)) + 1real) / 100000real,
        ),
        (z.val)(mix) == 0real ==> (z.val)(mix) * ((z.val)(wet) - (z.val)(dry)) == 0real,
        (z.val)(mix) == 1real ==> (z.val)(mix) * ((z.val)(wet) - (z.val)(dry)) == (z.val)(wet)
            - (z.val)(dry),
{
    reveal(blended);
    let (one, keep, part) = choose|one: S, keep: S, part: S| #[trigger]
        blended_by(m, mix, dry, wet, one, keep, part, r);
    let x = (z.val)(mix);
    let d = (z.val)(dry);
    let w = (z.val)(wet);
    lemma_whole_about(m, z, 1i32, one);
    lemma_diff_about(m, z, one, mix, keep, 1real, 0real, x, 0real);
    let ek = 2real / 1000000real;
    assert(about(z, keep, 1real - x, ek));
    let k = 1real - x;
    let sd = size(d);
    let ep = ek * sd;
    assert(off_product(k, ek, d, 0real) == ep) by (nonlinear_arith)
        requires
            ep == ek * sd,
            sd == size(d),
            off_product(k, ek, d, 0real) == ek * size(d) + size(k) * 0real + ek * 0real,
    ;
    assert(size(k * d) <= sd) by {
        crate::rounding::lemma_product_size(k, d, 1real, sd);
    }
    assert(ep <= 2real / 1000real);
    lemma_prod_about(m, z, keep, dry, part, k, ek, d, 0real, ep);
    let e2 = ep + off(sd + ep);
    assert(about(z, part, k * d, e2));
    assert(off_product(x, 0real, w, 0real) == 0real) by (nonlinear_arith)
        requires
            off_product(x, 0real, w, 0real) == 0real * size(w) + size(x) * 0real + 0real * 0real,
    ;
    assert(size(x * w) <= size(w)) by {
        crate::rounding::lemma_product_size(x, w, 1real, size(w));
    }
    lemma_mul_add_about(m, z, part, mix, wet, r, k * d, e2, x, 0real, w, 0real, 0real);
    assert(k * d + x * w == d + x * (w - d)) by (nonlinear_arith)
        requires
            k == 1real - x,
    ;
    assert(x == 0real ==> x * (w - d) == 0real) by (nonlinear_arith);
    assert(x == 1real ==> x * (w - d) == w - d) by (nonlinear_arith);
    assert(ep == 2real / 1000000real * sd);
}

/// A tone turns through its frequency's share of a turn from one sample to the next:
/// at the sample rate through a whole turn, at half of it through half a turn.
pub proof fn law_a_tone_turns_by_its_frequency<S: Copy, M: SampleMath<S>>(
    m: &M,
    z: Numbers<S>,
    turn: S,
    hz: S,
    rate: S,
    r: S,
)
    requires
        rounds(m, z),
        one_turn::<S, M>(m),
        call_ensures(M::full_turn, (m,), turn),
        (z.finite)(hz),
        size((z.val)(hz)) <= 100000real,
        (z.finite)(rate),
        1real <= (z.val)(rate) <= 400000real,
        call_ensures(phase_step::<S, M>, (m, hz, rate), r),
    ensures
        (z.finite)(r),
        size((z.val)(r) * (z.val)(rate) - (z.val)(turn) * (z.val)(hz)) <= size((z.val)(hz))
            / 50000real + 1real / 10000000real + (z.val)(rate) / 1000000000real,
{
    lemma_turns_value(m, z, turn, hz, (z.val)(hz), 0real, rate, r);
}

/// The same, of what the contract of [`phase_step`] says, for a frequency that is
/// itself only about right.
pub proof fn lemma_turns_value<S, M: SampleMath<S>>(
    m: &M,
    z: Numbers<S>,
    turn: S,
    hz: S,
    f: real,
    ef: real,
    rate: S,
    r: S,
)
    requires
        rounds(m, z),
        one_turn::<S, M>(m),
        call_ensures(M::full_turn, (m,), turn),
        about(z, hz, f, ef),
        size(f) <= 100000real,
        0real <= ef <= 1real,
        (z.finite)(rate),
        1real <= (z.val)(rate) <= 400000real,
        crate::math::turns_by(m, hz, rate, r),
    ensures
        (z.finite)(r),
        (z.finite)(turn),
        628real / 100real <= (z.val)(turn) <= 629real / 100real,
        size((z.val)(r) * (z.val)(rate) - (z.val)(turn) * f) <= 7real * ef + size(f) / 50000real
            + 1real / 10000000real + (z.val)(rate) / 1000000000real,
{
    let (t, fast) = choose|t: S, fast: S|
        call_ensures(M::full_turn, (m,), t) && #[trigger] call_ensures(
            M::prod,
            (m, t, hz),
            fast,
        ) && call_ensures(M::quot, (m, fast, rate), r);
    assert(t == turn);
    assert((z.finite)(turn) && 628real / 100real <= (z.val)(turn) <= 629real / 100real) by {
        reveal(rounds);
    }
    let tv = (z.val)(turn);
    let sf = size(f);
    let e = tv * ef;
    assert(off_product(tv, 0real, f, ef) == e) by (nonlinear_arith)
        requires
            e == tv * ef,
            tv == size(tv),
            off_product(tv, 0real, f, ef) == 0real * size(f) + size(tv) * ef + 0real * ef,
    ;
    assert(e <= 63real / 10real * ef && e >= 0real) by (nonlinear_arith)
        requires
            e == tv * ef,
            0real <= tv <= 63real / 10real,
            0real <= ef,
    ;
    assert(size(tv * f) <= 629real / 100real * sf) by {
        crate::rounding::lemma_product_size(tv, f, 629real / 100real, sf);
    }
    lemma_prod_about(m, z, turn, hz, fast, tv, 0real, f, ef, e);
    let x = size(tv * f);
    let ea = e + off(x + e);
    lemma_quot_times(m, z, fast, rate, r, tv * f, ea);
    assert(ea == e + (x + e) / 1000000real + 1real / 1000000000real);
    assert(ea + (x + ea) / 1000000real <= 7real * ef + sf / 50000real + 1real / 10000000real);
}

} // verus!
