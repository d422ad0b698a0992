//! What meters and controls show, as numbers.

use vstd::prelude::*;

use crate::audio::byte_level;
use crate::block::{
    highest, highest_by, highest_level, level_step, level_step_by, meter_moved, meter_moved_by,
    move_meter,
};
use crate::controls::{
    hop_millis, meter_fill, meter_fill_by, meter_percent, overlap_factor, percent, percentage,
    percentage_by,
};
use crate::dsp::engine::{limit, limited, limited_by};
use crate::frame::FFT_SIZE;
use crate::math::SampleMath;
use crate::rounding::{
    is_scale, lemma_clamped_value, lemma_near_is_off_by_little, lemma_product_size, near, rounds,
    size, Numbers,
};
use crate::values::{
    about, lemma_cancel, lemma_count_about, lemma_diff_about, lemma_prod_about, lemma_quot_about,
    lemma_quot_times, lemma_whole_about, measures, off, off_product,
};

verus! {

// --------------------------------------------------------------------- levels

/// The levels on the way rise, and none is below what was seen.
proof fn lemma_levels<S, M: SampleMath<S>>(
    m: &M,
    z: Numbers<S>,
    xs: Seq<S>,
    start: S,
    levels: Seq<S>,
    r: S,
    k: int,
)
    requires
        rounds(m, z),
        measures(m, z),
        (z.finite)(start),
        forall|i: int| 0 <= i < xs.len() ==> (z.finite)(#[trigger] xs[i]),
        highest_by(m, xs, start, levels, r),
        0 <= k <= xs.len(),
    ensures
        (z.finite)(levels[k]),
        (z.val)(levels[k]) >= (z.val)(start),
        forall|i: int| 0 <= i < k ==> (z.val)(levels[k]) >= size((z.val)(#[trigger] xs[i])),
        (z.val)(levels[k]) == (z.val)(start) || exists|i: int|
            0 <= i < k && (z.val)(levels[k]) == size((z.val)(#[trigger] xs[i])),
    decreases k,
{
    if k > 0 {
        lemma_levels(m, z, xs, start, levels, r, k - 1);
        assert(level_step(m, levels[k - 1], xs[k - 1], levels[k - 1 + 1]));
        let (s, a) = choose|s: S, a: bool| #[trigger]
            level_step_by(m, levels[k - 1], xs[k - 1], s, a, levels[k]);
        assert((z.finite)(xs[k - 1]));
        assert((z.finite)(s) && (z.val)(s) == size((z.val)(xs[k - 1])));
        assert(a == ((z.val)(levels[k - 1]) < (z.val)(s))) by {
            reveal(rounds);
        }
        if a {
            assert((z.val)(levels[k]) == size((z.val)(xs[k - 1])));
        }
    }
}

/// The highest level is that of the loudest sample: none is louder, and one is as
/// loud, unless none is above the start.
pub proof fn law_the_level_is_that_of_the_loudest<S: Copy, M: SampleMath<S>>(
    m: &M,
    z: Numbers<S>,
    xs: &[S],
    start: S,
    r: S,
)
    requires
        rounds(m, z),
        measures(m, z),
        (z.finite)(start),
        forall|i: int| 0 <= i < xs@.len() ==> (z.finite)(#[trigger] xs@[i]),
        call_ensures(highest_level::<S, M>, (m, xs, start), r),
    ensures
        (z.val)(r) >= (z.val)(start),
        forall|i: int| 0 <= i < xs@.len() ==> (z.val)(r) >= size((z.val)(#[trigger] xs@[i])),
        (z.val)(r) == (z.val)(start) || exists|i: int|
            0 <= i < xs@.len() && (z.val)(r) == size((z.val)(#[trigger] xs@[i])),
{
    let levels = choose|levels: Seq<S>| #[trigger] highest_by(m, xs@, start, levels, r);
    lemma_levels(m, z, xs@, start, levels, r, xs@.len() as int);
}

/// The meter rises at once, and falls by 8 percent otherwise.
pub proof fn law_the_meter_rises_at_once_and_falls_slowly<S: Copy, M: SampleMath<S>>(
    m: &M,
    z: Numbers<S>,
    meter: S,
    level: S,
    r: S,
)
    requires
        rounds(m, z),
        (z.finite)(meter),
        0real <= (z.val)(meter) <= 1000real,
        (z.finite)(level),
        call_ensures(move_meter::<S, M>, (m, meter, level), r),
    ensures
        (z.val)(level) > (z.val)(meter) ==> r == level,
        (z.val)(level) <= (z.val)(meter) ==> about(
            z,
            r,
            (z.val)(meter) * 92real / 100real,
            ((z.val)(meter) + 1real) / 100000real,
        ),
{
    let (rises, decay) = choose|rises: bool, decay: S| #[trigger]
        meter_moved_by(m, meter, level, rises, decay, r);
    assert(rises == ((z.val)(meter) < (z.val)(level))) by {
        reveal(rounds);
    }
    assert(near(z, (92 as int) as real / (100 as int) as real, decay) && is_scale(z)) by {
        reveal(rounds);
    }
    lemma_near_is_off_by_little(z, 92real / 100real, decay);
    let v = (z.val)(meter);
    let e = v / 1000000real;
    assert(off_product(v, 0real, 92real / 100real, 1real / 1000000real) == e) by (nonlinear_arith)
        requires
            e == v / 1000000real,
            v == size(v),
            off_product(v, 0real, 92real / 100real, 1real / 1000000real) == 0real * size(
                92real / 100real,
            ) + size(v) * (1real / 1000000real) + 0real * (1real / 1000000real),
    ;
    assert(v * (92real / 100real) == v * 92real / 100real) by (nonlinear_arith);
    if !rises {
        lemma_prod_about(
            m,
            z,
            meter,
            decay,
            r,
            v,
            0real,
            92real / 100real,
            1real / 1000000real,
            e,
        );
    }
}

/// The output stage scales by the gain and keeps to the range from -1 to 1.
pub proof fn law_the_output_is_scaled_and_held<S: Copy, M: SampleMath<S>>(
    m: &M,
    z: Numbers<S>,
    x: S,
    gain: S,
    r: S,
)
    requires
        rounds(m, z),
        (z.finite)(x),
        size((z.val)(x)) <= 1000real,
        (z.finite)(gain),
        size((z.val)(gain)) <= 10real,
        call_ensures(limit::<S, M>, (m, x, gain), r),
    ensures
        -1real <= (z.val)(r) <= 1real,
        (z.val)(x) * (z.val)(gain) >= 1real ==> (z.val)(r) >= 1real - 1real / 50real,
        (z.val)(x) * (z.val)(gain) <= -1real ==> (z.val)(r) <= -1real + 1real / 50real,
        size((z.val)(x) * (z.val)(gain)) <= 1real ==> about(
            z,
            r,
            (z.val)(x) * (z.val)(gain),
            1real / 100000real,
        ),
{
    let (scaled, top, over, bottom, under) = choose|
        scaled: S,
        top: S,
        over: bool,
        bottom: S,
        under: bool,
    | #[trigger]
        limited_by(m, x, gain, scaled, top, over, bottom, under, r);
    lemma_whole_about(m, z, 1i32, top);
    lemma_whole_about(m, z, -1i32, bottom);
    let a = (z.val)(x);
    let b = (z.val)(gain);
    lemma_product_size(a, b, 1000real, 10real);
    assert(off_product(a, 0real, b, 0real) == 0real) by (nonlinear_arith)
        requires
            off_product(a, 0real, b, 0real) == 0real * size(b) + size(a) * 0real + 0real * 0real,
    ;
    lemma_prod_about(m, z, x, gain, scaled, a, 0real, b, 0real, 0real);
    assert(over == (1real < (z.val)(scaled)) && under == ((z.val)(scaled) < -1real)) by {
        reveal(rounds);
    }
}

// ------------------------------------------------------------------- controls

/// How many windows lie over each sample, times the hop, is a frame.
pub proof fn law_overlap_times_hop_is_a_frame<S: Copy, M: SampleMath<S>>(
    m: &M,
    z: Numbers<S>,
    hop: usize,
    r: S,
)
    requires
        rounds(m, z),
        1 <= hop <= 1000000,
        call_ensures(overlap_factor::<S, M>, (m, hop), r),
    ensures
        (z.finite)(r),
        size((z.val)(r) * ((hop as int) as real) - 2048real) <= ((hop as int) as real) / 1000000real
            + 1real / 100real,
{
    let (frame, step) = choose|frame: S, step: S|
        call_ensures(M::count, (m, FFT_SIZE), frame) && call_ensures(M::count, (m, hop), step)
            && #[trigger] call_ensures(M::quot, (m, frame, step), r);
    lemma_count_about(m, z, FFT_SIZE, frame);
    lemma_count_about(m, z, hop, step);
    lemma_quot_times(m, z, frame, step, r, 2048real, 0real);
}

/// As many milliseconds make up a hop as thousandths of the sample rate do samples.
pub proof fn law_a_hop_lasts_its_share_of_a_second<S: Copy, M: SampleMath<S>>(
    m: &M,
    z: Numbers<S>,
    hop: usize,
    rate: S,
    r: S,
)
    requires
        rounds(m, z),
        z.limit >= 10000000real,
        hop <= 2048,
        (z.finite)(rate),
        10real <= (z.val)(rate) <= 400000real,
        call_ensures(hop_millis::<S, M>, (m, hop, rate), r),
    ensures
        (z.finite)(r),
        size((z.val)(r) * (z.val)(rate) - 1000real * ((hop as int) as real)) <= ((hop as int) as real)
            / 100real + (z.val)(rate) / 1000000real + 1real / 100real,
{
    let (step, thousand, scaled) = choose|step: S, thousand: S, scaled: S|
        call_ensures(M::count, (m, hop), step) && call_ensures(
            M::ratio,
            (m, 1000i32, 1u32),
            thousand,
        ) && #[trigger] call_ensures(M::prod, (m, step, thousand), scaled) && call_ensures(
            M::quot,
            (m, scaled, rate),
            r,
        );
    lemma_count_about(m, z, hop, step);
    lemma_whole_about(m, z, 1000i32, thousand);
    let h = (hop as int) as real;
    assert(near(z, h * 1000real, scaled) && is_scale(z)) by {
        reveal(rounds);
    }
    lemma_near_is_off_by_little(z, h * 1000real, scaled);
    lemma_quot_times(m, z, scaled, rate, r, 1000real * h, off(1000real * h));
}

/// A byte of the analyser stands for its share of 255: none for 0, all for 255.
pub proof fn law_a_byte_is_a_share_of_255<S, M: SampleMath<S>>(
    m: &M,
    z: Numbers<S>,
    byte: u8,
    r: S,
)
    requires
        rounds(m, z),
        byte_level(m, byte, r),
    ensures
        (z.finite)(r),
        size((z.val)(r) * 255real - (byte as int) as real) <= 1real / 1000real,
{
    let (part, whole) = choose|part: S, whole: S|
        call_ensures(M::count, (m, byte as usize), part) && call_ensures(
            M::ratio,
            (m, 255i32, 1u32),
            whole,
        ) && #[trigger] call_ensures(M::quot, (m, part, whole), r);
    lemma_count_about(m, z, byte as usize, part);
    lemma_whole_about(m, z, 255i32, whole);
    lemma_quot_times(m, z, part, whole, r, (byte as int) as real, 0real);
}

} // verus!
