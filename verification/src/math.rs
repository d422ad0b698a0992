//! Arithmetic on samples and on spectrum bins.
//!
//! The traits below carry no contract: nothing is assumed of the arithmetic.
//! A contract that speaks of a computed sample says which operations were
//! applied to which values, in which order, through `call_ensures`.

use vstd::prelude::*;

use crate::frame::Frame;

verus! {

/// Arithmetic on real samples.
pub trait SampleMath<S> {
    /// The constant `num / den`.
    fn ratio(&self, num: i32, den: u32) -> S;

    /// The number `n` as a sample value.
    fn count(&self, n: usize) -> S;

    /// `a + b`.
    fn sum(&self, a: S, b: S) -> S;

    /// `a - b`.
    fn diff(&self, a: S, b: S) -> S;

    /// `a * b`.
    fn prod(&self, a: S, b: S) -> S;

    /// `a / b`.
    fn quot(&self, a: S, b: S) -> S;

    /// `acc + a * b`.
    fn mul_add(&self, acc: S, a: S, b: S) -> S;

    /// `|a|`.
    fn magnitude(&self, a: S) -> S;

    /// `-a`.
    fn opposite(&self, a: S) -> S;

    /// Whether `a < b`.
    fn less(&self, a: S, b: S) -> bool;

    /// Whether `a <= b`.
    fn at_most(&self, a: S, b: S) -> bool;

    /// Half a turn, as an angle: `pi`.
    fn half_turn(&self) -> S;

    /// A whole turn, as an angle: `2 * pi`.
    fn full_turn(&self) -> S;

    /// The cosine of an angle.
    fn cosine(&self, angle: S) -> S;

    /// The sine and the cosine of an angle, in this order.
    fn sin_cos(&self, angle: S) -> (S, S);

    /// The greatest whole number that is not above `a`, for an `a` that is not
    /// below zero.
    fn floor_index(&self, a: S) -> usize;
}

/// Arithmetic on the bins of a spectrum.
pub trait BinMath<S, C>: SampleMath<S> {
    /// The bin with the real part `re` and no imaginary part.
    fn bin(&self, re: S) -> C;

    /// The real part of a bin.
    fn bin_re(&self, c: C) -> S;

    /// `a + b`.
    fn bin_sum(&self, a: C, b: C) -> C;

    /// `c`, scaled by the real number `s`.
    fn bin_scale(&self, c: C, s: S) -> C;

    /// The bin with the real part `re` and the imaginary part `im`.
    fn bin_pair(&self, re: S, im: S) -> C;

    /// `a * b`.
    fn bin_prod(&self, a: C, b: C) -> C;

    /// The complex conjugate of `c`.
    fn bin_conj(&self, c: C) -> C;

    /// The discrete Fourier transform.
    fn forward(&self, frame: Frame<C>) -> Frame<C>;

    /// The inverse transform, not normalised: frame-length times the frame
    /// that [`BinMath::forward`] would take to `frame`.
    fn inverse(&self, frame: Frame<C>) -> Frame<C>;
}

/// Arithmetic for the picture of the spectrum.
pub trait DrawMath<S>: SampleMath<S> {
    /// `i / n`.
    fn share(&self, i: usize, n: usize) -> S;

    /// The logarithm of `a`, to the base of ten.
    fn log_ten(&self, a: S) -> S;

    /// Ten to the power of `a`.
    fn ten_to(&self, a: S) -> S;

    /// The square root of `a`.
    fn root(&self, a: S) -> S;
}

/// `r` is `x` held to the range from `lo` to `hi`: first raised to `lo`, then
/// lowered to `hi`.
pub open spec fn clamped<S, M: SampleMath<S>>(m: &M, x: S, lo: S, hi: S, r: S) -> bool {
    exists|below: bool, above: bool| #[trigger] clamped_by(m, x, lo, hi, below, above, r)
}

/// [`clamped`], with the outcomes of its two comparisons.
pub open spec fn clamped_by<S, M: SampleMath<S>>(
    m: &M,
    x: S,
    lo: S,
    hi: S,
    below: bool,
    above: bool,
    r: S,
) -> bool {
    let raised = if below {
        lo
    } else {
        x
    };
    &&& call_ensures(M::less, (m, x, lo), below)
    &&& call_ensures(M::less, (m, hi, raised), above)
    &&& r == if above {
        hi
    } else {
        raised
    }
}

/// Holds `x` to the range from `lo` to `hi`.
pub fn clamp_sample<S: Copy, M: SampleMath<S>>(m: &M, x: S, lo: S, hi: S) -> (r: S)
    ensures
        clamped(m, x, lo, hi, r),
{
    let below = m.less(x, lo);
    let raised = if below {
        lo
    } else {
        x
    };
    let above = m.less(hi, raised);
    let r = if above {
        hi
    } else {
        raised
    };
    assert(clamped_by(m, x, lo, hi, below, above, r));
    r
}

/// `r` is one of the ends `lo` and `hi`, or compares as neither below the one nor
/// above the other.
pub open spec fn between<S, M: SampleMath<S>>(m: &M, lo: S, hi: S, r: S) -> bool {
    ||| r == lo
    ||| r == hi
    ||| call_ensures(M::less, (m, r, lo), false) && call_ensures(M::less, (m, hi, r), false)
}

/// What is held to a range lies in it, and what lay in it stays.
pub proof fn law_clamped_is_between<S, M: SampleMath<S>>(m: &M, x: S, lo: S, hi: S, r: S)
    requires
        clamped(m, x, lo, hi, r),
    ensures
        between(m, lo, hi, r),
        r != lo && r != hi ==> r == x,
{
}

/// `r` is `(1 - mix) * dry + mix * wet`.
#[verifier::opaque]
pub open spec fn blended<S, M: SampleMath<S>>(m: &M, mix: S, dry: S, wet: S, r: S) -> bool {
    exists|one: S, keep: S, part: S| #[trigger] blended_by(m, mix, dry, wet, one, keep, part, r)
}

/// [`blended`], with its intermediate values.
pub open spec fn blended_by<S, M: SampleMath<S>>(
    m: &M,
    mix: S,
    dry: S,
    wet: S,
    one: S,
    keep: S,
    part: S,
    r: S,
) -> bool {
    &&& call_ensures(M::ratio, (m, 1i32, 1u32), one)
    &&& call_ensures(M::diff, (m, one, mix), keep)
    &&& call_ensures(M::prod, (m, keep, dry), part)
    &&& call_ensures(M::mul_add, (m, part, mix, wet), r)
}

/// Cross-fades from `dry` to `wet` by `mix`.
pub fn blend<S: Copy, M: SampleMath<S>>(m: &M, mix: S, dry: S, wet: S) -> (r: S)
    ensures
        blended(m, mix, dry, wet, r),
{
    let one = m.ratio(1, 1);
    let keep = m.diff(one, mix);
    let part = m.prod(keep, dry);
    let r = m.mul_add(part, mix, wet);
    proof {
        reveal(blended);
        assert(blended_by(m, mix, dry, wet, one, keep, part, r));
    }
    r
}

/// `r` says whether two sample rates are more than half a hertz apart.
pub open spec fn rates_apart<S, M: SampleMath<S>>(m: &M, a: S, b: S, r: bool) -> bool {
    exists|half: S, d: S, gap: S| #[trigger] rates_apart_by(m, a, b, half, d, gap, r)
}

/// [`rates_apart`], with its intermediate values.
pub open spec fn rates_apart_by<S, M: SampleMath<S>>(
    m: &M,
    a: S,
    b: S,
    half: S,
    d: S,
    gap: S,
    r: bool,
) -> bool {
    &&& call_ensures(M::ratio, (m, 1i32, 2u32), half)
    &&& call_ensures(M::diff, (m, a, b), d)
    &&& call_ensures(M::magnitude, (m, d), gap)
    &&& call_ensures(M::less, (m, half, gap), r)
}

/// Whether two sample rates are more than half a hertz apart.
pub fn rate_changed<S: Copy, M: SampleMath<S>>(m: &M, a: S, b: S) -> (r: bool)
    ensures
        rates_apart(m, a, b, r),
{
    let half = m.ratio(1, 2);
    let d = m.diff(a, b);
    let gap = m.magnitude(d);
    let r = m.less(half, gap);
    assert(rates_apart_by(m, a, b, half, d, gap, r));
    r
}

/// `r` is the Hann window of the given period at `k`:
/// `1/2 - 1/2 * cos(turn * k / period)`.
pub open spec fn hann_at<S, M: SampleMath<S>>(m: &M, k: usize, period: usize, r: S) -> bool {
    exists|half: S, turn: S, at: S, along: S, span: S, angle: S, cos: S, dip: S| #[trigger]
        hann_at_by(m, k, period, half, turn, at, along, span, angle, cos, dip, r)
}

/// [`hann_at`], with its intermediate values.
pub open spec fn hann_at_by<S, M: SampleMath<S>>(
    m: &M,
    k: usize,
    period: usize,
    half: S,
    turn: S,
    at: S,
    along: S,
    span: S,
    angle: S,
    cos: S,
    dip: S,
    r: S,
) -> bool {
    &&& call_ensures(M::ratio, (m, 1i32, 2u32), half)
    &&& call_ensures(M::full_turn, (m,), turn)
    &&& call_ensures(M::count, (m, k), at)
    &&& call_ensures(M::prod, (m, turn, at), along)
    &&& call_ensures(M::count, (m, period), span)
    &&& call_ensures(M::quot, (m, along, span), angle)
    &&& call_ensures(M::cosine, (m, angle), cos)
    &&& call_ensures(M::prod, (m, half, cos), dip)
    &&& call_ensures(M::diff, (m, half, dip), r)
}

/// The Hann window of the given period at `k`.
pub fn hann<S: Copy, M: SampleMath<S>>(m: &M, k: usize, period: usize) -> (r: S)
    ensures
        hann_at(m, k, period, r),
{
    let half = m.ratio(1, 2);
    let turn = m.full_turn();
    let at = m.count(k);
    let along = m.prod(turn, at);
    let span = m.count(period);
    let angle = m.quot(along, span);
    let cos = m.cosine(angle);
    let dip = m.prod(half, cos);
    let r = m.diff(half, dip);
    assert(hann_at_by(m, k, period, half, turn, at, along, span, angle, cos, dip, r));
    r
}

/// `r` is the angle that a tone of `hz` turns through from one sample to the
/// next: `turn * hz / rate`.
pub open spec fn turns_by<S, M: SampleMath<S>>(m: &M, hz: S, rate: S, r: S) -> bool {
    exists|turn: S, per_second: S|
        call_ensures(M::full_turn, (m,), turn) && #[trigger] call_ensures(
            M::prod,
            (m, turn, hz),
            per_second,
        ) && call_ensures(M::quot, (m, per_second, rate), r)
}

/// The angle that a tone of `hz` turns through from one sample to the next.
pub fn phase_step<S: Copy, M: SampleMath<S>>(m: &M, hz: S, rate: S) -> (r: S)
    ensures
        turns_by(m, hz, rate, r),
{
    let turn = m.full_turn();
    let per_second = m.prod(turn, hz);
    let r = m.quot(per_second, rate);
    assert(call_ensures(M::prod, (m, turn, hz), per_second));
    r
}

/// `r` is the angle that comes next on the way towards zero: a turn less where
/// `angle` is above `bound`, a turn more where it is below the opposite of
/// `bound`, and none where it has come far enough.
pub open spec fn unwound<S, M: SampleMath<S>>(m: &M, angle: S, bound: S, r: Option<S>) -> bool {
    exists|turn: S, above: bool, opposite: S, below: bool| #[trigger]
        unwound_by(m, angle, bound, turn, above, opposite, below, r)
}

/// [`unwound`], with its intermediate values.
pub open spec fn unwound_by<S, M: SampleMath<S>>(
    m: &M,
    angle: S,
    bound: S,
    turn: S,
    above: bool,
    opposite: S,
    below: bool,
    r: Option<S>,
) -> bool {
    &&& call_ensures(M::full_turn, (m,), turn)
    &&& call_ensures(M::less, (m, bound, angle), above)
    &&& call_ensures(M::opposite, (m, bound), opposite)
    &&& call_ensures(M::less, (m, angle, opposite), below)
    &&& match r {
        Some(next) => if above {
            call_ensures(M::diff, (m, angle, turn), next)
        } else {
            below && call_ensures(M::sum, (m, angle, turn), next)
        },
        None => !above && !below,
    }
}

/// Takes the next step of bringing `angle` within `bound` of zero, if it is not
/// there.
pub fn unwind<S: Copy, M: SampleMath<S>>(m: &M, angle: S, bound: S) -> (r: Option<S>)
    ensures
        unwound(m, angle, bound, r),
{
    let turn = m.full_turn();
    let above = m.less(bound, angle);
    let opposite = m.opposite(bound);
    let below = m.less(angle, opposite);
    let r = if above {
        Some(m.diff(angle, turn))
    } else if below {
        Some(m.sum(angle, turn))
    } else {
        None
    };
    assert(unwound_by(m, angle, bound, turn, above, opposite, below, r));
    r
}

/// The most turns that are taken off an angle.
pub const MAX_TURNS: u64 = u64::MAX;

/// `r` is `angle`, less as many whole turns as bring it within `bound` of zero.
#[verifier::opaque]
pub open spec fn wrapped<S, M: SampleMath<S>>(m: &M, angle: S, bound: S, r: S) -> bool {
    exists|chain: Seq<S>| #[trigger] wrapped_by(m, angle, bound, chain, r)
}

/// [`wrapped`], with all the angles on the way: each one is a step of [`unwound`]
/// from the one before, and no step is left at the end, unless [`MAX_TURNS`] were
/// taken.
pub open spec fn wrapped_by<S, M: SampleMath<S>>(
    m: &M,
    angle: S,
    bound: S,
    chain: Seq<S>,
    r: S,
) -> bool {
    &&& 1 <= chain.len() <= MAX_TURNS + 1
    &&& chain[0] == angle
    &&& chain.last() == r
    &&& forall|i: int|
        0 <= i < chain.len() - 1 ==> unwound(m, #[trigger] chain[i], bound, Some(chain[i + 1]))
    &&& chain.len() <= MAX_TURNS ==> unwound(m, r, bound, None)
}

/// Takes whole turns off `angle` until it lies within `bound` of zero.
pub fn wrap_angle<S: Copy, M: SampleMath<S>>(m: &M, angle: S, bound: S) -> (r: S)
    ensures
        wrapped(m, angle, bound, r),
{
    let mut at = angle;
    let mut turns: u64 = 0;
    let ghost mut chain = seq![angle];
    while turns < MAX_TURNS
        invariant
            chain.len() == turns + 1,
            chain[0] == angle,
            chain.last() == at,
            forall|i: int|
                0 <= i < chain.len() - 1 ==> unwound(
                    m,
                    #[trigger] chain[i],
                    bound,
                    Some(chain[i + 1]),
                ),
        decreases MAX_TURNS - turns,
    {
        match unwind(m, at, bound) {
            None => {
                proof {
                    reveal(wrapped);
                    assert(wrapped_by(m, angle, bound, chain, at));
                }
                return at;
            },
            Some(next) => {
                proof {
                    let longer = chain.push(next);
                    assert forall|i: int| 0 <= i < longer.len() - 1 implies unwound(
                        m,
                        #[trigger] longer[i],
                        bound,
                        Some(longer[i + 1]),
                    ) by {
                        assert(longer[i] == chain[i]);
                    }
                    chain = longer;
                }
                at = next;
                turns = turns + 1;
            },
        }
    }
    proof {
        reveal(wrapped);
        assert(wrapped_by(m, angle, bound, chain, at));
    }
    at
}

/// `r` is `angle`, less as many whole turns as bring it within one turn of zero.
pub open spec fn wrapped_in_turn<S, M: SampleMath<S>>(m: &M, angle: S, r: S) -> bool {
    exists|bound: S|
        call_ensures(M::full_turn, (m,), bound) && #[trigger] wrapped(m, angle, bound, r)
}

/// Takes whole turns off `angle` until it lies within one turn of zero.
pub fn wrap_turn<S: Copy, M: SampleMath<S>>(m: &M, angle: S) -> (r: S)
    ensures
        wrapped_in_turn(m, angle, r),
{
    let bound = m.full_turn();
    wrap_angle(m, angle, bound)
}

/// `r` is `angle`, less as many whole turns as bring it within half a turn of
/// zero.
pub open spec fn wrapped_in_half_turn<S, M: SampleMath<S>>(m: &M, angle: S, r: S) -> bool {
    exists|bound: S|
        call_ensures(M::half_turn, (m,), bound) && #[trigger] wrapped(m, angle, bound, r)
}

/// Takes whole turns off `angle` until it lies within half a turn of zero.
pub fn wrap_half_turn<S: Copy, M: SampleMath<S>>(m: &M, angle: S) -> (r: S)
    ensures
        wrapped_in_half_turn(m, angle, r),
{
    let bound = m.half_turn();
    wrap_angle(m, angle, bound)
}

/// `r` is `start + a[0] * b[0] + a[1] * b[1] + ...`, added up from the left.
pub open spec fn accumulated<S, M: SampleMath<S>>(
    m: &M,
    a: Seq<S>,
    b: Seq<S>,
    start: S,
    r: S,
) -> bool {
    exists|partial: Seq<S>| #[trigger] accumulated_by(m, a, b, start, partial, r)
}

/// [`accumulated`], with its partial results: `partial[k]` is what the first
/// `k` products add up to.
pub open spec fn accumulated_by<S, M: SampleMath<S>>(
    m: &M,
    a: Seq<S>,
    b: Seq<S>,
    start: S,
    partial: Seq<S>,
    r: S,
) -> bool {
    &&& partial.len() == a.len() + 1
    &&& partial[0] == start
    &&& partial.last() == r
    &&& forall|k: int|
        0 <= k < a.len() ==> call_ensures(
            M::mul_add,
            (m, #[trigger] partial[k], a[k], b[k]),
            partial[k + 1],
        )
}

/// Nothing adds up to the start value.
pub proof fn lemma_accumulated_none<S, M: SampleMath<S>>(m: &M, start: S)
    ensures
        accumulated(m, Seq::<S>::empty(), Seq::<S>::empty(), start, start),
{
    assert(accumulated_by(m, Seq::<S>::empty(), Seq::<S>::empty(), start, seq![start], start));
}

/// One more product extends an accumulation.
pub proof fn lemma_accumulated_push<S, M: SampleMath<S>>(
    m: &M,
    a: Seq<S>,
    b: Seq<S>,
    start: S,
    prev: S,
    x: S,
    y: S,
    r: S,
)
    requires
        a.len() == b.len(),
        accumulated(m, a, b, start, prev),
        call_ensures(M::mul_add, (m, prev, x, y), r),
    ensures
        accumulated(m, a.push(x), b.push(y), start, r),
{
    let partial = choose|partial: Seq<S>| #[trigger]
        accumulated_by(m, a, b, start, partial, prev);
    let longer = partial.push(r);
    assert forall|k: int| 0 <= k < a.push(x).len() implies call_ensures(
        M::mul_add,
        (m, #[trigger] longer[k], a.push(x)[k], b.push(y)[k]),
        longer[k + 1],
    ) by {
        if k < a.len() {
            assert(longer[k] == partial[k]);
        }
    }
    assert(accumulated_by(m, a.push(x), b.push(y), start, longer, r));
}

/// `r` is `start + xs[0] + xs[1] + ...`, added up from the left.
pub open spec fn added_up<S, M: SampleMath<S>>(m: &M, xs: Seq<S>, start: S, r: S) -> bool {
    exists|partial: Seq<S>| #[trigger] added_up_by(m, xs, start, partial, r)
}

/// [`added_up`], with its partial results: `partial[k]` is what the first `k`
/// values add up to.
pub open spec fn added_up_by<S, M: SampleMath<S>>(
    m: &M,
    xs: Seq<S>,
    start: S,
    partial: Seq<S>,
    r: S,
) -> bool {
    &&& partial.len() == xs.len() + 1
    &&& partial[0] == start
    &&& partial.last() == r
    &&& forall|k: int|
        0 <= k < xs.len() ==> call_ensures(
            M::sum,
            (m, #[trigger] partial[k], xs[k]),
            partial[k + 1],
        )
}

/// Adds up all of `xs`, from the left.
pub fn add_up<S: Copy, M: SampleMath<S>>(m: &M, xs: &Vec<S>, start: S) -> (r: S)
    ensures
        added_up(m, xs@, start, r),
{
    let n = xs.len();
    let mut total = start;
    let ghost mut partial = seq![start];
    let mut k: usize = 0;
    while k < n
        invariant
            n == xs@.len(),
            k <= n,
            added_up_by(m, xs@.take(k as int), start, partial, total),
        decreases n - k,
    {
        let next = m.sum(total, xs[k]);
        proof {
            let longer = partial.push(next);
            let xs1 = xs@.take(k + 1);
            assert forall|j: int| 0 <= j < xs1.len() implies call_ensures(
                M::sum,
                (m, #[trigger] longer[j], xs1[j]),
                longer[j + 1],
            ) by {
                if j < k {
                    assert(longer[j] == partial[j]);
                    assert(xs@.take(k as int)[j] == xs1[j]);
                }
            }
            partial = longer;
        }
        total = next;
        k = k + 1;
    }
    assert(xs@.take(n as int) =~= xs@);
    assert(added_up_by(m, xs@, start, partial, total));
    total
}

} // verus!
