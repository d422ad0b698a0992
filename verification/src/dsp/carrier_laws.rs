//! What the carriers of the time-domain engine do, as numbers.

use vstd::prelude::*;

use crate::dsp::hop_laws::{hop_error, lemma_slip};
use crate::dsp::ssb::{
    left_hz, left_step, right_hz, right_step, ssb_block, ssb_block_by, voice_step, voice_step_by,
    voice_stepper, SsbParams, SsbShifter, VoiceState, VoiceTuning,
};
use crate::math::{turns_by, wrapped, wrapped_by, wrapped_in_turn, SampleMath};
use crate::rounding::{
    is_scale, law_angles_within_the_bound_are_left, law_wrapping_takes_whole_turns,
    lemma_product_size, one_turn, rounds, size, slip_at, Numbers,
};
use crate::stream::{lemma_streamed_pop, streamed};
use crate::value_laws::{lemma_half, lemma_turns_value};
use crate::values::{
    about, lemma_cancel, lemma_diff_about, lemma_mul_add_about, lemma_prod_about, lemma_sum_about,
    off, off_product,
};

verus! {

/// Settings of at most 10000 Hz, whatever their signs.
pub open spec fn audible<S>(z: Numbers<S>, p: SsbParams<S>) -> bool {
    &&& (z.finite)(p.shift_hz)
    &&& size((z.val)(p.shift_hz)) <= 10000real
    &&& (z.finite)(p.stereo_spread_hz)
    &&& size((z.val)(p.stereo_spread_hz)) <= 10000real
}

/// A sample rate: finite, from 1000 to 400000 Hz.
pub open spec fn is_rate<S>(z: Numbers<S>, rate: S) -> bool {
    (z.finite)(rate) && 1000real <= (z.val)(rate) <= 400000real
}

/// How far the turns of a carrier in one second may be off.
pub open spec fn carrier_error<S>(z: Numbers<S>, p: SsbParams<S>) -> real {
    (size((z.val)(p.shift_hz)) + size((z.val)(p.stereo_spread_hz)) + 30real) / 10000real
}

/// What the left channel is shifted by.
proof fn lemma_left_hz<S, M: SampleMath<S>>(m: &M, z: Numbers<S>, p: SsbParams<S>, hz: S)
    requires
        rounds(m, z),
        audible(z, p),
        left_hz(m, p, hz),
    ensures
        about(
            z,
            hz,
            (z.val)(p.shift_hz) + (z.val)(p.stereo_spread_hz) / 2real,
            (size((z.val)(p.shift_hz)) + size((z.val)(p.stereo_spread_hz)) + 1real) / 200000real,
        ),
{
    let half = choose|half: S|
        call_ensures(M::ratio, (m, 1i32, 2u32), half) && #[trigger] call_ensures(
            M::mul_add,
            (m, p.shift_hz, p.stereo_spread_hz, half),
            hz,
        );
    lemma_half(m, z, half);
    let a = (z.val)(p.shift_hz);
    let b = (z.val)(p.stereo_spread_hz);
    let e = size(b) / 1000000real;
    lemma_halved(b, e);
    lemma_mul_add_about(
        m,
        z,
        p.shift_hz,
        p.stereo_spread_hz,
        half,
        hz,
        a,
        0real,
        b,
        0real,
        1real / 2real,
        1real / 1000000real,
        e,
    );
}

/// One half of a number, by a half that is only about right.
proof fn lemma_halved(b: real, e: real)
    requires
        e == size(b) / 1000000real,
    ensures
        off_product(b, 0real, 1real / 2real, 1real / 1000000real) == e,
        b * (1real / 2real) == b / 2real,
{
    let sb = size(b);
    assert(off_product(b, 0real, 1real / 2real, 1real / 1000000real) == e) by (nonlinear_arith)
        requires
            sb == size(b),
            e == sb / 1000000real,
            off_product(b, 0real, 1real / 2real, 1real / 1000000real) == 0real * size(1real / 2real)
                + size(b) * (1real / 1000000real) + 0real * (1real / 1000000real),
    ;
    assert(b * (1real / 2real) == b / 2real) by (nonlinear_arith);
}

/// What the right channel is shifted by.
proof fn lemma_right_hz<S, M: SampleMath<S>>(m: &M, z: Numbers<S>, p: SsbParams<S>, hz: S)
    requires
        rounds(m, z),
        audible(z, p),
        right_hz(m, p, hz),
    ensures
        about(
            z,
            hz,
            (z.val)(p.shift_hz) - (z.val)(p.stereo_spread_hz) / 2real,
            (size((z.val)(p.shift_hz)) + size((z.val)(p.stereo_spread_hz)) + 1real) / 200000real,
        ),
{
    let (half, away) = choose|half: S, away: S|
        call_ensures(M::ratio, (m, 1i32, 2u32), half) && #[trigger] call_ensures(
            M::prod,
            (m, p.stereo_spread_hz, half),
            away,
        ) && call_ensures(M::diff, (m, p.shift_hz, away), hz);
    lemma_half(m, z, half);
    let a = (z.val)(p.shift_hz);
    let b = (z.val)(p.stereo_spread_hz);
    let e = size(b) / 1000000real;
    lemma_halved(b, e);
    lemma_prod_about(
        m,
        z,
        p.stereo_spread_hz,
        half,
        away,
        b,
        0real,
        1real / 2real,
        1real / 1000000real,
        e,
    );
    let ea = e + off(size(b / 2real) + e);
    lemma_diff_about(m, z, p.shift_hz, away, hz, a, 0real, b / 2real, ea);
}

/// Two products less two others.
proof fn lemma_apart(l: real, r: real, v: real, t: real, f: real, g: real, b: real)
    requires
        b == f - g,
    ensures
        (l - r) * v - t * b == (l * v - t * f) - (r * v - t * g),
{
    assert((l - r) * v == l * v - r * v) by (nonlinear_arith);
    assert(t * (f - g) == t * f - t * g) by (nonlinear_arith);
}

/// Whatever the signs of the settings, the left carrier turns by `shift + spread / 2`
/// in one second, and the right one by `shift - spread / 2`. So left less right is the
/// spread.
pub proof fn law_carriers_turn_by_shift_and_spread<S, M: SampleMath<S>>(
    m: &M,
    z: Numbers<S>,
    p: SsbParams<S>,
    turn: S,
    rate: S,
    step_l: S,
    step_r: S,
)
    requires
        rounds(m, z),
        one_turn::<S, M>(m),
        call_ensures(M::full_turn, (m,), turn),
        audible(z, p),
        is_rate(z, rate),
        left_step(m, p, rate, step_l),
        right_step(m, p, rate, step_r),
    ensures
        (z.finite)(step_l),
        (z.finite)(step_r),
        size(
            (z.val)(step_l) * (z.val)(rate) - (z.val)(turn) * ((z.val)(p.shift_hz) + (z.val)(
                p.stereo_spread_hz,
            ) / 2real),
        ) <= carrier_error(z, p),
        size(
            (z.val)(step_r) * (z.val)(rate) - (z.val)(turn) * ((z.val)(p.shift_hz) - (z.val)(
                p.stereo_spread_hz,
            ) / 2real),
        ) <= carrier_error(z, p),
        size(
            ((z.val)(step_l) - (z.val)(step_r)) * (z.val)(rate) - (z.val)(turn) * (z.val)(
                p.stereo_spread_hz,
            ),
        ) <= 2real * carrier_error(z, p),
{
    let hl = choose|hz: S| #[trigger] left_hz(m, p, hz) && turns_by(m, hz, rate, step_l);
    let hr = choose|hz: S| #[trigger] right_hz(m, p, hz) && turns_by(m, hz, rate, step_r);
    lemma_left_hz(m, z, p, hl);
    lemma_right_hz(m, z, p, hr);
    let a = (z.val)(p.shift_hz);
    let b = (z.val)(p.stereo_spread_hz);
    let e = (size(a) + size(b) + 1real) / 200000real;
    lemma_turns_value(m, z, turn, hl, a + b / 2real, e, rate, step_l);
    lemma_turns_value(m, z, turn, hr, a - b / 2real, e, rate, step_r);
    let t = (z.val)(turn);
    let l = (z.val)(step_l);
    let r = (z.val)(step_r);
    let v = (z.val)(rate);
    lemma_apart(l, r, v, t, a + b / 2real, a - b / 2real, b);
}

// ------------------------------------------------------------- over many samples

/// The carrier moves by its step with every sample, up to whole turns and rounding.
pub proof fn law_each_sample_moves_the_carrier<S, M: SampleMath<S>>(
    m: &M,
    z: Numbers<S>,
    t: VoiceTuning<S>,
    s: VoiceState<S>,
    x: S,
    next: VoiceState<S>,
    out: S,
    turn: S,
) -> (turns: int)
    requires
        rounds(m, z),
        one_turn::<S, M>(m),
        call_ensures(M::full_turn, (m,), turn),
        (z.finite)(t.step),
        size((z.val)(t.step)) <= 1000real,
        (z.finite)(s.phase),
        size((z.val)(s.phase)) <= 7real,
        voice_step(m, t, s, x, next, out),
    ensures
        (z.finite)(next.phase),
        size((z.val)(next.phase)) <= 7real,
        size(
            (z.val)(next.phase) - ((z.val)(s.phase) + (z.val)(t.step) - (turns as real) * (z.val)(
                turn,
            )),
        ) <= hop_error((z.val)(t.step)),
{
    reveal(voice_step);
    let (y, im, upper, lower, part, wet, turned) = choose|
        y: S,
        im: S,
        upper: S,
        lower: S,
        part: S,
        wet: S,
        turned: S,
    | #[trigger]
        voice_step_by(m, t, s, x, y, im, upper, lower, part, wet, turned, next, out);
    lemma_turned(m, z, s.phase, t.step, turned, next.phase, turn)
}

/// One sum and one wrap.
proof fn lemma_turned<S, M: SampleMath<S>>(
    m: &M,
    z: Numbers<S>,
    phase: S,
    step: S,
    turned: S,
    next: S,
    turn: S,
) -> (turns: int)
    requires
        rounds(m, z),
        one_turn::<S, M>(m),
        call_ensures(M::full_turn, (m,), turn),
        (z.finite)(step),
        size((z.val)(step)) <= 1000real,
        (z.finite)(phase),
        size((z.val)(phase)) <= 7real,
        call_ensures(M::sum, (m, phase, step), turned),
        wrapped_in_turn(m, turned, next),
    ensures
        (z.finite)(next),
        size((z.val)(next)) <= 7real,
        size(
            (z.val)(next) - ((z.val)(phase) + (z.val)(step) - (turns as real) * (z.val)(turn)),
        ) <= hop_error((z.val)(step)),
{
    let p = (z.val)(phase);
    let g = (z.val)(step);
    lemma_sum_about(m, z, phase, step, turned, p, 0real, g, 0real);
    let bound = choose|b: S|
        call_ensures(M::full_turn, (m,), b) && #[trigger] wrapped(m, turned, b, next);
    assert(bound == turn);
    let sg = size(g);
    let cap = sg + 8real;
    let n = law_wrapping_takes_whole_turns(m, z, turn, turn, turned, next, cap);
    assert(is_scale(z) && (z.val)(turn) <= 7real) by {
        reveal(rounds);
    }
    let un = z.unit;
    assert(0real <= un * cap <= cap / 16000000real) by (nonlinear_arith)
        requires
            0real <= un <= 1real / 16000000real,
            cap >= 0real,
    ;
    lemma_slip(size(n as real), slip_at(z, cap), cap);
    n
}

/// One more sample.
proof fn lemma_one_more(n: int, g: real, e: real, a: int, b: int, t: real)
    ensures
        ((n + 1) as real) * g == (n as real) * g + g,
        ((n + 1) as real) * e == (n as real) * e + e,
        ((a + b) as real) * t == (a as real) * t + (b as real) * t,
{
    let x = n as real;
    let c = a as real;
    let d = b as real;
    assert((n + 1) as real == x + 1real);
    assert((a + b) as real == c + d);
    assert((x + 1real) * g == x * g + g) by (nonlinear_arith);
    assert((x + 1real) * e == x * e + e) by (nonlinear_arith);
    assert((c + d) * t == c * t + d * t) by (nonlinear_arith);
}

/// Over a stream, the carrier moves by its step as often as there are samples.
pub proof fn law_a_stream_moves_the_carrier<S, M: SampleMath<S>>(
    m: &M,
    z: Numbers<S>,
    t: VoiceTuning<S>,
    from: VoiceState<S>,
    ins: Seq<S>,
    outs: Seq<S>,
    to: VoiceState<S>,
    turn: S,
) -> (turns: int)
    requires
        rounds(m, z),
        one_turn::<S, M>(m),
        call_ensures(M::full_turn, (m,), turn),
        (z.finite)(t.step),
        size((z.val)(t.step)) <= 1000real,
        (z.finite)(from.phase),
        size((z.val)(from.phase)) <= 7real,
        streamed(voice_stepper(m, t), from, ins, outs, to),
    ensures
        (z.finite)(to.phase),
        size((z.val)(to.phase)) <= 7real,
        size(
            (z.val)(to.phase) - ((z.val)(from.phase) + ((ins.len() as int) as real) * (z.val)(t.step)
                - (turns as real) * (z.val)(turn)),
        ) <= ((ins.len() as int) as real) * hop_error((z.val)(t.step)),
    decreases ins.len(),
{
    let g = (z.val)(t.step);
    let tv = (z.val)(turn);
    let e = hop_error(g);
    if ins.len() > 0 {
        let mid = lemma_streamed_pop(voice_stepper(m, t), from, ins, outs, to);
        let a = law_a_stream_moves_the_carrier(
            m,
            z,
            t,
            from,
            ins.drop_last(),
            outs.drop_last(),
            mid,
            turn,
        );
        let b = law_each_sample_moves_the_carrier(m, z, t, mid, ins.last(), to, outs.last(), turn);
        lemma_one_more(ins.len() - 1, g, e, a, b, tv);
        a + b
    } else {
        lemma_none(g, e, tv);
        0
    }
}

/// Nothing times anything.
proof fn lemma_none(g: real, e: real, t: real)
    ensures
        (0int as real) * g == 0real,
        (0int as real) * e == 0real,
        (0int as real) * t == 0real,
{
    assert(0real * g == 0real) by (nonlinear_arith);
    assert(0real * e == 0real) by (nonlinear_arith);
    assert(0real * t == 0real) by (nonlinear_arith);
}

/// Over a block, the left carrier turns by `shift + spread / 2` per second and the
/// right one by `shift - spread / 2`, as numbers: each moves by that step with every
/// sample, up to whole turns and rounding.
pub proof fn law_a_block_turns_by_shift_and_spread<S: Copy, M: SampleMath<S>>(
    m: &M,
    z: Numbers<S>,
    p: SsbParams<S>,
    pre: SsbShifter<S>,
    in_l: Seq<S>,
    in_r: Seq<S>,
    out_l: Seq<S>,
    out_r: Seq<S>,
    post: SsbShifter<S>,
    turn: S,
) -> (moved: ((real, int), (real, int)))
    requires
        rounds(m, z),
        one_turn::<S, M>(m),
        call_ensures(M::full_turn, (m,), turn),
        audible(z, p),
        is_rate(z, pre.rate()),
        (z.finite)(pre.left().phase),
        size((z.val)(pre.left().phase)) <= 7real,
        (z.finite)(pre.right().phase),
        size((z.val)(pre.right().phase)) <= 7real,
        ssb_block(m, p, pre, in_l, in_r, out_l, out_r, post),
    ensures
        size(
            moved.0.0 * (z.val)(pre.rate()) - (z.val)(turn) * ((z.val)(p.shift_hz) + (z.val)(
                p.stereo_spread_hz,
            ) / 2real),
        ) <= carrier_error(z, p),
        size(
            moved.1.0 * (z.val)(pre.rate()) - (z.val)(turn) * ((z.val)(p.shift_hz) - (z.val)(
                p.stereo_spread_hz,
            ) / 2real),
        ) <= carrier_error(z, p),
        size(
            (z.val)(post.left().phase) - ((z.val)(pre.left().phase) + ((in_l.len() as int) as real)
                * moved.0.0 - (moved.0.1 as real) * (z.val)(turn)),
        ) <= ((in_l.len() as int) as real) * hop_error(moved.0.0),
        size(
            (z.val)(post.right().phase) - ((z.val)(pre.right().phase) + ((in_r.len() as int) as real)
                * moved.1.0 - (moved.1.1 as real) * (z.val)(turn)),
        ) <= ((in_r.len() as int) as real) * hop_error(moved.1.0),
        (z.finite)(post.left().phase),
        size((z.val)(post.left().phase)) <= 7real,
        (z.finite)(post.right().phase),
        size((z.val)(post.right().phase)) <= 7real,
{
    let (f, sl, sr) = choose|f: S, sl: S, sr: S| #[trigger]
        ssb_block_by(m, p, pre, in_l, in_r, f, sl, sr, out_l, out_r, post);
    law_carriers_turn_by_shift_and_spread(m, z, p, turn, pre.rate(), sl, sr);
    pre.lemma_parts(p, f, sl);
    pre.lemma_parts(p, f, sr);
    let t = (z.val)(turn);
    assert(t <= 629real / 100real && t >= 0real) by {
        reveal(rounds);
    }
    let a = (z.val)(p.shift_hz);
    let b = (z.val)(p.stereo_spread_hz);
    let v = (z.val)(pre.rate());
    lemma_step_is_small(t, a + b / 2real, (z.val)(sl), v);
    lemma_step_is_small(t, a - b / 2real, (z.val)(sr), v);
    let nl = law_a_stream_moves_the_carrier(
        m,
        z,
        pre.left_tuning(p, f, sl),
        pre.left(),
        in_l,
        out_l,
        post.left(),
        turn,
    );
    let nr = law_a_stream_moves_the_carrier(
        m,
        z,
        pre.right_tuning(p, f, sr),
        pre.right(),
        in_r,
        out_r,
        post.right(),
        turn,
    );
    (((z.val)(sl), nl), ((z.val)(sr), nr))
}

/// A step at an audible frequency is small.
proof fn lemma_step_is_small(t: real, f: real, s: real, rate: real)
    requires
        0real <= t <= 629real / 100real,
        size(f) <= 15000real,
        size(s * rate - t * f) <= 10real,
        rate >= 1000real,
    ensures
        size(s) <= 1000real,
{
    lemma_product_size(t, f, 629real / 100real, 15000real);
    lemma_product_size(s, rate, size(s), rate);
    let ss = size(s);
    assert(ss * rate <= 100000real);
    assert(1000real * rate >= 1000000real);
    lemma_cancel(ss, 1000real, rate);
}

} // verus!
