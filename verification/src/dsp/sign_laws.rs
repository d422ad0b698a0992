//! What holds of the time-domain engine where signs behave as they do on paper.
//!
//! Numbers may have more than one zero, so what is said here is said up to a
//! relation that does not tell the zeros apart.

use vstd::prelude::*;

use crate::dsp::alike::{lemma_fresh_ssb_alike, lemma_one_feedback};
use crate::dsp::ssb::{
    feedback_of, left_hz, left_step, right_hz, right_step, sidebands, sidebands_by, soft_clipped,
    soft_clipped_by, ssb_block, ssb_block_by, ssb_made, voice_step, voice_step_by, voice_stepper,
    SsbParams, SsbShifter, VoiceState, VoiceTuning,
};
use crate::math::{
    accumulated, accumulated_by, blended, blended_by, clamped, clamped_by, turns_by, unwound,
    unwound_by, wrapped, wrapped_by, wrapped_in_turn, SampleMath,
};
use crate::repeat::{law_machines_stay_in_step, repeatable};
use crate::ring::delayed;
use crate::stream::streamed;

verus! {

/// Which samples are the same number, and which are opposite numbers.
///
/// For samples with a positive and a negative zero, both relations take them for
/// one: `same(a, b)` is `a == b` as numbers and `opposed(a, b)` is `a == -b`. What is
/// no number is the same as, and opposed to, what is no number.
#[verifier::reject_recursive_types(S)]
pub struct Signs<S> {
    pub same: spec_fn(S, S) -> bool,
    pub opposed: spec_fn(S, S) -> bool,
}

/// The same numbers give the same numbers.
pub open spec fn same_give_same<S, M: SampleMath<S>>(m: &M, g: Signs<S>) -> bool {
    &&& forall|a: S| #[trigger] (g.same)(a, a)
    &&& forall|a: S, b: S, a1: S, b1: S, r: S, r1: S|
        #![trigger call_ensures(M::sum, (m, a, b), r), call_ensures(M::sum, (m, a1, b1), r1)]
        (g.same)(a, a1) && (g.same)(b, b1) && call_ensures(M::sum, (m, a, b), r) && call_ensures(
            M::sum,
            (m, a1, b1),
            r1,
        ) ==> (g.same)(r, r1)
    &&& forall|a: S, b: S, a1: S, b1: S, r: S, r1: S|
        #![trigger call_ensures(M::diff, (m, a, b), r), call_ensures(M::diff, (m, a1, b1), r1)]
        (g.same)(a, a1) && (g.same)(b, b1) && call_ensures(M::diff, (m, a, b), r) && call_ensures(
            M::diff,
            (m, a1, b1),
            r1,
        ) ==> (g.same)(r, r1)
    &&& forall|a: S, b: S, a1: S, b1: S, r: S, r1: S|
        #![trigger call_ensures(M::prod, (m, a, b), r), call_ensures(M::prod, (m, a1, b1), r1)]
        (g.same)(a, a1) && (g.same)(b, b1) && call_ensures(M::prod, (m, a, b), r) && call_ensures(
            M::prod,
            (m, a1, b1),
            r1,
        ) ==> (g.same)(r, r1)
    &&& forall|a: S, b: S, c: S, a1: S, b1: S, c1: S, r: S, r1: S|
        #![trigger call_ensures(M::mul_add, (m, a, b, c), r), call_ensures(M::mul_add, (m, a1, b1, c1), r1)]
        (g.same)(a, a1) && (g.same)(b, b1) && (g.same)(c, c1) && call_ensures(
            M::mul_add,
            (m, a, b, c),
            r,
        ) && call_ensures(M::mul_add, (m, a1, b1, c1), r1) ==> (g.same)(r, r1)
    &&& forall|a: S, b: S, a1: S, b1: S, r: bool, r1: bool|
        #![trigger call_ensures(M::less, (m, a, b), r), call_ensures(M::less, (m, a1, b1), r1)]
        (g.same)(a, a1) && (g.same)(b, b1) && call_ensures(M::less, (m, a, b), r) && call_ensures(
            M::less,
            (m, a1, b1),
            r1,
        ) ==> r == r1
}

/// Signs pass through sums, differences, products and quotients. Zero is its own
/// opposite.
pub open spec fn signs_pass<S, M: SampleMath<S>>(m: &M, g: Signs<S>) -> bool {
    &&& forall|a: S, b: S|
        #![trigger call_ensures(M::opposite, (m, a), b)]
        call_ensures(M::opposite, (m, a), b) ==> (g.opposed)(a, b)
    &&& forall|z: S|
        #![trigger call_ensures(M::ratio, (m, 0i32, 1u32), z)]
        call_ensures(M::ratio, (m, 0i32, 1u32), z) ==> (g.opposed)(z, z)
    &&& forall|n: i32, k: i32, a: S, b: S|
        #![trigger call_ensures(M::ratio, (m, n, 1u32), a), call_ensures(M::ratio, (m, k, 1u32), b)]
        n + k == 0 && call_ensures(M::ratio, (m, n, 1u32), a) && call_ensures(
            M::ratio,
            (m, k, 1u32),
            b,
        ) ==> (g.opposed)(a, b)
    &&& forall|a: S, b: S, a1: S, b1: S, r: S, r1: S|
        #![trigger call_ensures(M::sum, (m, a, b), r), call_ensures(M::sum, (m, a1, b1), r1)]
        (g.opposed)(a, a1) && (g.opposed)(b, b1) && call_ensures(M::sum, (m, a, b), r)
            && call_ensures(M::sum, (m, a1, b1), r1) ==> (g.opposed)(r, r1)
    &&& forall|a: S, b: S, a1: S, b1: S, r: S, r1: S|
        #![trigger call_ensures(M::diff, (m, a, b), r), call_ensures(M::diff, (m, a1, b1), r1)]
        (g.opposed)(a, a1) && (g.opposed)(b, b1) && call_ensures(M::diff, (m, a, b), r)
            && call_ensures(M::diff, (m, a1, b1), r1) ==> (g.opposed)(r, r1)
    &&& forall|a: S, b: S, c: S, a1: S, b1: S, r: S, r1: S|
        #![trigger call_ensures(M::mul_add, (m, a, b, c), r), call_ensures(M::mul_add, (m, a1, b1, c), r1)]
        (g.opposed)(a, a1) && (g.opposed)(b, b1) && call_ensures(M::mul_add, (m, a, b, c), r)
            && call_ensures(M::mul_add, (m, a1, b1, c), r1) ==> (g.opposed)(r, r1)
    &&& forall|a: S, b: S, a1: S, b1: S, r: S, r1: S|
        #![trigger call_ensures(M::prod, (m, a, b), r), call_ensures(M::prod, (m, a1, b1), r1)]
        (g.opposed)(a, a1) && (g.same)(b, b1) && call_ensures(M::prod, (m, a, b), r)
            && call_ensures(M::prod, (m, a1, b1), r1) ==> (g.opposed)(r, r1)
    &&& forall|a: S, b: S, a1: S, b1: S, r: S, r1: S|
        #![trigger call_ensures(M::prod, (m, a, b), r), call_ensures(M::prod, (m, a1, b1), r1)]
        (g.same)(a, a1) && (g.opposed)(b, b1) && call_ensures(M::prod, (m, a, b), r)
            && call_ensures(M::prod, (m, a1, b1), r1) ==> (g.opposed)(r, r1)
    &&& forall|a: S, b: S, a1: S, b1: S, r: S, r1: S|
        #![trigger call_ensures(M::prod, (m, a, b), r), call_ensures(M::prod, (m, a1, b1), r1)]
        (g.opposed)(a, a1) && (g.opposed)(b, b1) && call_ensures(M::prod, (m, a, b), r)
            && call_ensures(M::prod, (m, a1, b1), r1) ==> (g.same)(r, r1)
    &&& forall|a: S, c: S, a1: S, r: S, r1: S|
        #![trigger call_ensures(M::quot, (m, a, c), r), call_ensures(M::quot, (m, a1, c), r1)]
        (g.opposed)(a, a1) && call_ensures(M::quot, (m, a, c), r) && call_ensures(
            M::quot,
            (m, a1, c),
            r1,
        ) ==> (g.opposed)(r, r1)
}

/// Adding is taking off the opposite, and a sum of two products does not depend on
/// which one comes first.
pub open spec fn sums_turn_round<S, M: SampleMath<S>>(m: &M, g: Signs<S>) -> bool {
    &&& forall|a: S, b: S, a1: S, b1: S, r: S, r1: S|
        #![trigger call_ensures(M::sum, (m, a, b), r), call_ensures(M::diff, (m, a1, b1), r1)]
        (g.same)(a, a1) && (g.opposed)(b, b1) && call_ensures(M::sum, (m, a, b), r)
            && call_ensures(M::diff, (m, a1, b1), r1) ==> (g.same)(r, r1) && (g.same)(r1, r)
    &&& forall|a: S, b: S, a1: S, b1: S, r: S, r1: S|
        #![trigger call_ensures(M::diff, (m, a, b), r), call_ensures(M::sum, (m, a1, b1), r1)]
        (g.same)(a, a1) && (g.opposed)(b, b1) && call_ensures(M::diff, (m, a, b), r)
            && call_ensures(M::sum, (m, a1, b1), r1) ==> (g.same)(r, r1) && (g.same)(r1, r)
    &&& forall|a: S, c: S, a1: S, r: S, r1: S|
        #![trigger call_ensures(M::diff, (m, a, c), r), call_ensures(M::sum, (m, a1, c), r1)]
        (g.opposed)(a, a1) && call_ensures(M::diff, (m, a, c), r) && call_ensures(
            M::sum,
            (m, a1, c),
            r1,
        ) ==> (g.opposed)(r, r1)
    &&& forall|a: S, c: S, a1: S, r: S, r1: S|
        #![trigger call_ensures(M::sum, (m, a, c), r), call_ensures(M::diff, (m, a1, c), r1)]
        (g.opposed)(a, a1) && call_ensures(M::sum, (m, a, c), r) && call_ensures(
            M::diff,
            (m, a1, c),
            r1,
        ) ==> (g.opposed)(r, r1)
    &&& forall|u: S, v: S, a: S, b: S, a1: S, b1: S, p: S, w: S, p1: S, w1: S|
        #![trigger call_ensures(M::prod, (m, u, a), p), call_ensures(M::mul_add, (m, p, v, b), w), call_ensures(M::prod, (m, v, b1), p1), call_ensures(M::mul_add, (m, p1, u, a1), w1)]
        (g.same)(a, a1) && (g.same)(b, b1) && call_ensures(M::prod, (m, u, a), p) && call_ensures(
            M::mul_add,
            (m, p, v, b),
            w,
        ) && call_ensures(M::prod, (m, v, b1), p1) && call_ensures(
            M::mul_add,
            (m, p1, u, a1),
            w1,
        ) ==> (g.same)(w, w1)
}

/// Opposite numbers compare the other way round, the sine is odd and the cosine is
/// even, and nothing lies past both ends of a turn.
pub open spec fn opposites_mirror<S, M: SampleMath<S>>(m: &M, g: Signs<S>) -> bool {
    &&& forall|a: S, b: S, a1: S, b1: S, r: bool, r1: bool|
        #![trigger call_ensures(M::less, (m, b, a), r), call_ensures(M::less, (m, a1, b1), r1)]
        (g.opposed)(a, a1) && (g.opposed)(b, b1) && call_ensures(M::less, (m, b, a), r)
            && call_ensures(M::less, (m, a1, b1), r1) ==> r == r1
    &&& forall|a: S, b: S, a1: S, b1: S, r: bool, r1: bool|
        #![trigger call_ensures(M::less, (m, a, b1), r), call_ensures(M::less, (m, b, a1), r1)]
        (g.opposed)(a, a1) && (g.opposed)(b, b1) && call_ensures(M::less, (m, a, b1), r)
            && call_ensures(M::less, (m, b, a1), r1) ==> r == r1
    &&& forall|a: S, a1: S, r: (S, S), r1: (S, S)|
        #![trigger call_ensures(M::sin_cos, (m, a), r), call_ensures(M::sin_cos, (m, a1), r1)]
        (g.opposed)(a, a1) && call_ensures(M::sin_cos, (m, a), r) && call_ensures(
            M::sin_cos,
            (m, a1),
            r1,
        ) ==> (g.opposed)(r.0, r1.0) && (g.same)(r.1, r1.1)
    &&& forall|a: S, c: S, c1: S|
        #![trigger call_ensures(M::less, (m, c, a), true), call_ensures(M::less, (m, a, c1), true)]
        (call_ensures(M::full_turn, (m,), c) || call_ensures(M::half_turn, (m,), c))
            && call_ensures(M::opposite, (m, c), c1) ==> !(call_ensures(M::less, (m, c, a), true)
            && call_ensures(M::less, (m, a, c1), true))
}

/// Signs behave as they do on paper.
pub open spec fn signs_cancel<S, M: SampleMath<S>>(m: &M, g: Signs<S>) -> bool {
    &&& same_give_same(m, g)
    &&& signs_pass(m, g)
    &&& sums_turn_round(m, g)
    &&& opposites_mirror(m, g)
}

/// Two sequences hold the same numbers.
pub open spec fn all_same<S>(g: Signs<S>, a: Seq<S>, b: Seq<S>) -> bool {
    &&& a.len() == b.len()
    &&& forall|i: int|
        #![trigger a[i]]
        #![trigger b[i]]
        0 <= i < a.len() ==> (g.same)(a[i], b[i])
}

// ------------------------------------------------------------------- wrapping

/// Opposite angles unwind to opposite angles.
proof fn lemma_unwound_opposed<S, M: SampleMath<S>>(
    m: &M,
    g: Signs<S>,
    angle: S,
    angle1: S,
    bound: S,
    r: Option<S>,
    r1: Option<S>,
)
    requires
        repeatable::<S, M>(m),
        signs_cancel(m, g),
        call_ensures(M::full_turn, (m,), bound) || call_ensures(M::half_turn, (m,), bound),
        (g.opposed)(angle, angle1),
        unwound(m, angle, bound, r),
        unwound(m, angle1, bound, r1),
    ensures
        r is Some == r1 is Some,
        r is Some ==> (g.opposed)(r->0, r1->0),
{
    let (t, a, o, b) = choose|t: S, a: bool, o: S, b: bool| #[trigger]
        unwound_by(m, angle, bound, t, a, o, b, r);
    let (t1, a1, o1, b1) = choose|t: S, a: bool, o: S, b: bool| #[trigger]
        unwound_by(m, angle1, bound, t, a, o, b, r1);
    assert((g.opposed)(bound, o));
    assert(o == o1 && t == t1);
    assert(a == b1);
    assert(b == a1);
}

/// They do so through opposite angles.
proof fn lemma_chain_opposed<S, M: SampleMath<S>>(
    m: &M,
    g: Signs<S>,
    bound: S,
    angle: S,
    c: Seq<S>,
    r: S,
    angle1: S,
    d: Seq<S>,
    r1: S,
    k: int,
)
    requires
        repeatable::<S, M>(m),
        signs_cancel(m, g),
        call_ensures(M::full_turn, (m,), bound) || call_ensures(M::half_turn, (m,), bound),
        (g.opposed)(angle, angle1),
        wrapped_by(m, angle, bound, c, r),
        wrapped_by(m, angle1, bound, d, r1),
        0 <= k < c.len(),
        k < d.len(),
    ensures
        (g.opposed)(c[k], d[k]),
    decreases k,
{
    if k > 0 {
        lemma_chain_opposed(m, g, bound, angle, c, r, angle1, d, r1, k - 1);
        assert(unwound(m, c[k - 1], bound, Some(c[k - 1 + 1])));
        assert(unwound(m, d[k - 1], bound, Some(d[k - 1 + 1])));
        lemma_unwound_opposed(m, g, c[k - 1], d[k - 1], bound, Some(c[k]), Some(d[k]));
    }
}

/// Opposite angles wrap to opposite angles, within a turn and within half a turn.
pub proof fn law_opposite_angles_wrap_to_opposites<S, M: SampleMath<S>>(
    m: &M,
    g: Signs<S>,
    bound: S,
    angle: S,
    r: S,
    angle1: S,
    r1: S,
)
    requires
        repeatable::<S, M>(m),
        signs_cancel(m, g),
        call_ensures(M::full_turn, (m,), bound) || call_ensures(M::half_turn, (m,), bound),
        (g.opposed)(angle, angle1),
        wrapped(m, angle, bound, r),
        wrapped(m, angle1, bound, r1),
    ensures
        (g.opposed)(r, r1),
{
    reveal(wrapped);
    let c = choose|c: Seq<S>| #[trigger] wrapped_by(m, angle, bound, c, r);
    let d = choose|d: Seq<S>| #[trigger] wrapped_by(m, angle1, bound, d, r1);
    if c.len() <= d.len() {
        let k = c.len() - 1;
        lemma_chain_opposed(m, g, bound, angle, c, r, angle1, d, r1, k);
        if c.len() < d.len() {
            assert(unwound(m, d[k], bound, Some(d[k + 1])));
            lemma_unwound_opposed(m, g, r, d[k], bound, None, Some(d[k + 1]));
        }
    } else {
        let k = d.len() - 1;
        lemma_chain_opposed(m, g, bound, angle, c, r, angle1, d, r1, k);
        assert(unwound(m, c[k], bound, Some(c[k + 1])));
        lemma_unwound_opposed(m, g, c[k], r1, bound, Some(c[k + 1]), None);
    }
}

/// The phase that a carrier wraps to is opposite where the phase was.
proof fn lemma_wrapped_opposed<S, M: SampleMath<S>>(
    m: &M,
    g: Signs<S>,
    angle: S,
    r: S,
    angle1: S,
    r1: S,
)
    requires
        repeatable::<S, M>(m),
        signs_cancel(m, g),
        (g.opposed)(angle, angle1),
        wrapped_in_turn(m, angle, r),
        wrapped_in_turn(m, angle1, r1),
    ensures
        (g.opposed)(r, r1),
{
    let bound = choose|b: S|
        call_ensures(M::full_turn, (m,), b) && #[trigger] wrapped(m, angle, b, r);
    let bound1 = choose|b: S|
        call_ensures(M::full_turn, (m,), b) && #[trigger] wrapped(m, angle1, b, r1);
    assert(bound == bound1);
    law_opposite_angles_wrap_to_opposites(m, g, bound, angle, r, angle1, r1);
}

// ------------------------------------------------------------------- clipping

/// The same numbers are held to a range as the same numbers.
proof fn lemma_clamped_same<S, M: SampleMath<S>>(
    m: &M,
    g: Signs<S>,
    x: S,
    x1: S,
    lo: S,
    hi: S,
    r: S,
    r1: S,
)
    requires
        same_give_same(m, g),
        (g.same)(x, x1),
        clamped(m, x, lo, hi, r),
        clamped(m, x1, lo, hi, r1),
    ensures
        (g.same)(r, r1),
{
    let (b, a) = choose|b: bool, a: bool| #[trigger] clamped_by(m, x, lo, hi, b, a, r);
    let (b1, a1) = choose|b: bool, a: bool| #[trigger] clamped_by(m, x1, lo, hi, b, a, r1);
    assert((g.same)(lo, lo) && (g.same)(hi, hi));
    assert(b == b1);
    let raised = if b {
        lo
    } else {
        x
    };
    let raised1 = if b1 {
        lo
    } else {
        x1
    };
    assert((g.same)(raised, raised1));
    assert(a == a1);
}

/// The same numbers are clipped to the same numbers.
proof fn lemma_clipped_same<S, M: SampleMath<S>>(m: &M, g: Signs<S>, x: S, x1: S, r: S, r1: S)
    requires
        repeatable::<S, M>(m),
        same_give_same(m, g),
        (g.same)(x, x1),
        soft_clipped(m, x, r),
        soft_clipped(m, x1, r1),
    ensures
        (g.same)(r, r1),
{
    let (lo, hi, y, sq, cu, sh, be) = choose|lo: S, hi: S, y: S, sq: S, cu: S, sh: S, be: S|
        #[trigger]
        soft_clipped_by(m, x, lo, hi, y, sq, cu, sh, be, r);
    let (lo1, hi1, y1, sq1, cu1, sh1, be1) = choose|
        lo: S,
        hi: S,
        y: S,
        sq: S,
        cu: S,
        sh: S,
        be: S,
    | #[trigger]
        soft_clipped_by(m, x1, lo, hi, y, sq, cu, sh, be, r1);
    assert(lo == lo1 && hi == hi1 && sh == sh1);
    lemma_clamped_same(m, g, x, x1, lo, hi, y, y1);
    assert((g.same)(sq, sq1));
    assert((g.same)(cu, cu1));
    assert((g.same)(sh, sh1));
    assert((g.same)(be, be1));
}

/// 3 is not below -3, and no number lies below -3 together with its opposite.
pub open spec fn three_is_positive<S, M: SampleMath<S>>(m: &M, g: Signs<S>) -> bool {
    &&& forall|lo: S, hi: S, b: bool|
        #![trigger call_ensures(M::less, (m, hi, lo), b)]
        call_ensures(M::ratio, (m, -3i32, 1u32), lo) && call_ensures(
            M::ratio,
            (m, 3i32, 1u32),
            hi,
        ) && call_ensures(M::less, (m, hi, lo), b) ==> !b
    &&& forall|lo: S, x: S, x1: S|
        #![trigger call_ensures(M::less, (m, x, lo), true), call_ensures(M::less, (m, x1, lo), true)]
        call_ensures(M::ratio, (m, -3i32, 1u32), lo) && (g.opposed)(x, x1) ==> !(call_ensures(
            M::less,
            (m, x, lo),
            true,
        ) && call_ensures(M::less, (m, x1, lo), true))
}

/// The soft clip is odd: opposite samples are clipped to opposite samples.
pub proof fn law_soft_clip_is_odd<S, M: SampleMath<S>>(
    m: &M,
    g: Signs<S>,
    x: S,
    x1: S,
    r: S,
    r1: S,
)
    requires
        repeatable::<S, M>(m),
        signs_cancel(m, g),
        three_is_positive(m, g),
        (g.opposed)(x, x1),
        soft_clipped(m, x, r),
        soft_clipped(m, x1, r1),
    ensures
        (g.opposed)(r, r1),
{
    let (lo, hi, y, sq, cu, sh, be) = choose|lo: S, hi: S, y: S, sq: S, cu: S, sh: S, be: S|
        #[trigger]
        soft_clipped_by(m, x, lo, hi, y, sq, cu, sh, be, r);
    let (lo1, hi1, y1, sq1, cu1, sh1, be1) = choose|
        lo: S,
        hi: S,
        y: S,
        sq: S,
        cu: S,
        sh: S,
        be: S,
    | #[trigger]
        soft_clipped_by(m, x1, lo, hi, y, sq, cu, sh, be, r1);
    assert(lo == lo1 && hi == hi1 && sh == sh1);
    assert((g.opposed)(lo, hi) && (g.opposed)(hi, lo));
    let (b, a) = choose|b: bool, a: bool| #[trigger] clamped_by(m, x, lo, hi, b, a, y);
    let (b1, a1) = choose|b: bool, a: bool| #[trigger] clamped_by(m, x1, lo, hi, b, a, y1);
    assert(!(b && b1));
    if b {
        assert(!a);
        assert(call_ensures(M::less, (m, x, lo), b) && call_ensures(M::less, (m, hi, x1), a1));
        assert(a1);
    } else if b1 {
        assert(!a1);
        assert(call_ensures(M::less, (m, hi, x), a) && call_ensures(M::less, (m, x1, lo), b1));
        assert(a);
    } else {
        assert(call_ensures(M::less, (m, x, lo), b) && call_ensures(M::less, (m, hi, x1), a1));
        assert(call_ensures(M::less, (m, hi, x), a) && call_ensures(M::less, (m, x1, lo), b1));
        assert(!a && !a1);
    }
    assert((g.opposed)(y, y1));
    assert((g.same)(sq, sq1));
    assert((g.opposed)(cu, cu1));
    assert((g.same)(sh, sh1));
    assert((g.opposed)(be, be1));
}

// ------------------------------------------------------------------ sidebands

/// A carrier at the opposite phase exchanges the sidebands.
proof fn lemma_sidebands_exchanged<S, M: SampleMath<S>>(
    m: &M,
    g: Signs<S>,
    re: S,
    im: S,
    phase: S,
    upper: S,
    lower: S,
    re1: S,
    im1: S,
    phase1: S,
    upper1: S,
    lower1: S,
)
    requires
        signs_cancel(m, g),
        (g.same)(re, re1),
        (g.same)(im, im1),
        (g.opposed)(phase, phase1),
        sidebands(m, re, im, phase, upper, lower),
        sidebands(m, re1, im1, phase1, upper1, lower1),
    ensures
        (g.same)(lower, upper1),
        (g.same)(upper, lower1),
{
    let (s, c, i, q) = choose|s: S, c: S, i: S, q: S| #[trigger]
        sidebands_by(m, re, im, phase, s, c, i, q, upper, lower);
    let (s1, c1, i1, q1) = choose|s: S, c: S, i: S, q: S| #[trigger]
        sidebands_by(m, re1, im1, phase1, s, c, i, q, upper1, lower1);
    assert((g.opposed)((s, c).0, (s1, c1).0) && (g.same)((s, c).1, (s1, c1).1));
    assert((g.same)(i, i1));
    assert((g.opposed)(q, q1));
}

/// The same numbers add up to the same number.
proof fn lemma_accumulated_same<S, M: SampleMath<S>>(
    m: &M,
    g: Signs<S>,
    a: Seq<S>,
    b: Seq<S>,
    b1: Seq<S>,
    start: S,
    r: S,
    r1: S,
)
    requires
        same_give_same(m, g),
        a.len() == b.len(),
        all_same(g, b, b1),
        accumulated(m, a, b, start, r),
        accumulated(m, a, b1, start, r1),
    ensures
        (g.same)(r, r1),
{
    let p = choose|p: Seq<S>| #[trigger] accumulated_by(m, a, b, start, p, r);
    let q = choose|q: Seq<S>| #[trigger] accumulated_by(m, a, b1, start, q, r1);
    lemma_partial_same(m, g, a, b, b1, start, p, r, q, r1, a.len() as int);
}

/// They do so all the way.
proof fn lemma_partial_same<S, M: SampleMath<S>>(
    m: &M,
    g: Signs<S>,
    a: Seq<S>,
    b: Seq<S>,
    b1: Seq<S>,
    start: S,
    p: Seq<S>,
    r: S,
    q: Seq<S>,
    r1: S,
    k: int,
)
    requires
        same_give_same(m, g),
        a.len() == b.len(),
        all_same(g, b, b1),
        accumulated_by(m, a, b, start, p, r),
        accumulated_by(m, a, b1, start, q, r1),
        0 <= k <= a.len(),
    ensures
        (g.same)(p[k], q[k]),
    decreases k,
{
    if k > 0 {
        lemma_partial_same(m, g, a, b, b1, start, p, r, q, r1, k - 1);
        assert(call_ensures(M::mul_add, (m, p[k - 1], a[k - 1], b[k - 1]), p[k - 1 + 1]));
        assert(call_ensures(M::mul_add, (m, q[k - 1], a[k - 1], b1[k - 1]), q[k - 1 + 1]));
        assert((g.same)(a[k - 1], a[k - 1]));
        assert((g.same)(b[k - 1], b1[k - 1]));
    } else {
        assert((g.same)(start, start));
    }
}

/// The same numbers blend to the same number.
proof fn lemma_blended_same<S, M: SampleMath<S>>(
    m: &M,
    g: Signs<S>,
    mix: S,
    dry: S,
    wet: S,
    r: S,
    dry1: S,
    wet1: S,
    r1: S,
)
    requires
        repeatable::<S, M>(m),
        same_give_same(m, g),
        (g.same)(dry, dry1),
        (g.same)(wet, wet1),
        blended(m, mix, dry, wet, r),
        blended(m, mix, dry1, wet1, r1),
    ensures
        (g.same)(r, r1),
{
    reveal(blended);
    let (o, k, p) = choose|o: S, k: S, p: S| #[trigger] blended_by(m, mix, dry, wet, o, k, p, r);
    let (o1, k1, p1) = choose|o: S, k: S, p: S| #[trigger]
        blended_by(m, mix, dry1, wet1, o, k, p, r1);
    assert(o == o1);
    assert(k == k1);
    assert((g.same)(k, k1) && (g.same)(mix, mix));
    assert((g.same)(p, p1));
}

/// Two channels are alike but for the direction of their carriers.
pub open spec fn mirror_states<S>(g: Signs<S>, a: VoiceState<S>, b: VoiceState<S>) -> bool {
    &&& all_same(g, a.held, b.held)
    &&& (g.same)(a.echo, b.echo)
    &&& (g.opposed)(a.phase, b.phase)
}

/// Two channels work alike but for the direction of their carriers and the
/// exchange of the sidebands.
pub open spec fn mirror_tunings<S>(g: Signs<S>, t: VoiceTuning<S>, u: VoiceTuning<S>) -> bool {
    &&& t.taps == u.taps
    &&& t.zero == u.zero
    &&& t.feedback == u.feedback
    &&& (g.opposed)(t.step, u.step)
    &&& t.params.upper_level == u.params.lower_level
    &&& t.params.lower_level == u.params.upper_level
    &&& t.params.mix == u.params.mix
}

/// Channels that mirror each other do so after one more sample.
proof fn lemma_mirror_step<S, M: SampleMath<S>>(
    m: &M,
    g: Signs<S>,
    t: VoiceTuning<S>,
    u: VoiceTuning<S>,
    a: VoiceState<S>,
    b: VoiceState<S>,
    x: S,
    n1: VoiceState<S>,
    o1: S,
    n2: VoiceState<S>,
    o2: S,
)
    requires
        repeatable::<S, M>(m),
        signs_cancel(m, g),
        t.taps.len() == a.held.len(),
        0 < t.taps.len(),
        t.taps.len() % 2 == 1,
        mirror_tunings(g, t, u),
        mirror_states(g, a, b),
        voice_step(m, t, a, x, n1, o1),
        voice_step(m, u, b, x, n2, o2),
    ensures
        mirror_states(g, n1, n2),
        n1.held.len() == a.held.len(),
        (g.same)(o1, o2),
{
    reveal(voice_step);
    let (y1, i1, u1, l1, p1, w1, t1) = choose|y: S, i: S, v: S, l: S, p: S, w: S, q: S| #[trigger]
        voice_step_by(m, t, a, x, y, i, v, l, p, w, q, n1, o1);
    let (y2, i2, u2, l2, p2, w2, t2) = choose|y: S, i: S, v: S, l: S, p: S, w: S, q: S| #[trigger]
        voice_step_by(m, u, b, x, y, i, v, l, p, w, q, n2, o2);
    assert((g.same)(x, x) && (g.same)(t.feedback, u.feedback));
    assert((g.same)(y1, y2));
    assert forall|i: int|
        #![trigger n1.held[i]]
        #![trigger n2.held[i]]
        0 <= i < n1.held.len() implies (g.same)(n1.held[i], n2.held[i]) by {
        if i < n1.held.len() - 1 {
            assert(n1.held[i] == a.held[i + 1]);
            assert(n2.held[i] == b.held[i + 1]);
        }
    }
    let lag = (t.taps.len() - 1) / 2;
    let re1 = delayed(n1.held, lag);
    let re2 = delayed(n2.held, lag);
    assert((g.same)(re1, re2));
    let h1 = n1.held.reverse();
    let h2 = n2.held.reverse();
    assert forall|i: int|
        #![trigger h1[i]]
        #![trigger h2[i]]
        0 <= i < h1.len() implies (g.same)(h1[i], h2[i]) by {
        let j = h1.len() - 1 - i;
        assert((g.same)(n1.held[j], n2.held[j]));
    }
    lemma_accumulated_same(m, g, t.taps, h1, h2, t.zero, i1, i2);
    lemma_sidebands_exchanged(m, g, re1, i1, a.phase, u1, l1, re2, i2, b.phase, u2, l2);
    assert((g.same)(w1, w2));
    lemma_blended_same(m, g, t.params.mix, re1, w1, o1, re2, w2, o2);
    lemma_clipped_same(m, g, w1, w2, n1.echo, n2.echo);
    assert((g.opposed)(t1, t2));
    lemma_wrapped_opposed(m, g, t1, n1.phase, t2, n2.phase);
}

/// Channels that mirror each other give the same numbers.
proof fn lemma_mirror_stream<S, M: SampleMath<S>>(
    m: &M,
    g: Signs<S>,
    t: VoiceTuning<S>,
    u: VoiceTuning<S>,
    a: VoiceState<S>,
    b: VoiceState<S>,
    ins: Seq<S>,
    o1: Seq<S>,
    n1: VoiceState<S>,
    o2: Seq<S>,
    n2: VoiceState<S>,
)
    requires
        repeatable::<S, M>(m),
        signs_cancel(m, g),
        t.taps.len() == a.held.len(),
        t.taps.len() % 2 == 1,
        mirror_tunings(g, t, u),
        mirror_states(g, a, b),
        streamed(voice_stepper(m, t), a, ins, o1, n1),
        streamed(voice_stepper(m, u), b, ins, o2, n2),
    ensures
        all_same(g, o1, o2),
        mirror_states(g, n1, n2),
{
    let one = voice_stepper(m, t);
    let other = voice_stepper(m, u);
    let rel = |c: VoiceState<S>, d: VoiceState<S>|
        mirror_states(g, c, d) && c.held.len() == t.taps.len();
    assert forall|
        c: VoiceState<S>,
        d: VoiceState<S>,
        x: S,
        nc: VoiceState<S>,
        oc: S,
        nd: VoiceState<S>,
        od: S,
    |
        #![trigger one(c, x, nc, oc), other(d, x, nd, od)]
        rel(c, d) && one(c, x, nc, oc) && other(d, x, nd, od) implies rel(nc, nd) && (g.same)(
        oc,
        od,
    ) by {
        lemma_mirror_step(m, g, t, u, c, d, x, nc, oc, nd, od);
    }
    law_machines_stay_in_step(one, other, rel, g.same, a, b, ins, o1, n1, o2, n2);
}

/// `q` is `p` with the sidebands exchanged, and shift and spread the other way.
pub open spec fn mirror_params<S>(g: Signs<S>, p: SsbParams<S>, q: SsbParams<S>) -> bool {
    &&& (g.opposed)(p.shift_hz, q.shift_hz)
    &&& (g.opposed)(p.stereo_spread_hz, q.stereo_spread_hz)
    &&& p.upper_level == q.lower_level
    &&& p.lower_level == q.upper_level
    &&& p.feedback == q.feedback
    &&& p.mix == q.mix
}

/// Opposite frequencies turn in opposite ways.
proof fn lemma_turns_opposed<S, M: SampleMath<S>>(
    m: &M,
    g: Signs<S>,
    hz: S,
    hz1: S,
    rate: S,
    r: S,
    r1: S,
)
    requires
        repeatable::<S, M>(m),
        signs_cancel(m, g),
        (g.opposed)(hz, hz1),
        turns_by(m, hz, rate, r),
        turns_by(m, hz1, rate, r1),
    ensures
        (g.opposed)(r, r1),
{
    let (t, w) = choose|t: S, w: S|
        call_ensures(M::full_turn, (m,), t) && #[trigger] call_ensures(M::prod, (m, t, hz), w)
            && call_ensures(M::quot, (m, w, rate), r);
    let (t1, w1) = choose|t: S, w: S|
        call_ensures(M::full_turn, (m,), t) && #[trigger] call_ensures(M::prod, (m, t, hz1), w)
            && call_ensures(M::quot, (m, w, rate), r1);
    assert(t == t1);
    assert((g.same)(t, t1));
    assert((g.opposed)(w, w1));
}

/// Mirrored settings move the carriers in opposite ways.
proof fn lemma_steps_opposed<S, M: SampleMath<S>>(
    m: &M,
    g: Signs<S>,
    p: SsbParams<S>,
    q: SsbParams<S>,
    rate: S,
    l: S,
    r: S,
    l1: S,
    r1: S,
)
    requires
        repeatable::<S, M>(m),
        signs_cancel(m, g),
        mirror_params(g, p, q),
        left_step(m, p, rate, l),
        left_step(m, q, rate, l1),
        right_step(m, p, rate, r),
        right_step(m, q, rate, r1),
    ensures
        (g.opposed)(l, l1),
        (g.opposed)(r, r1),
{
    let hl = choose|hz: S| #[trigger] left_hz(m, p, hz) && turns_by(m, hz, rate, l);
    let hl1 = choose|hz: S| #[trigger] left_hz(m, q, hz) && turns_by(m, hz, rate, l1);
    let half = choose|half: S|
        call_ensures(M::ratio, (m, 1i32, 2u32), half) && #[trigger] call_ensures(
            M::mul_add,
            (m, p.shift_hz, p.stereo_spread_hz, half),
            hl,
        );
    let half1 = choose|half: S|
        call_ensures(M::ratio, (m, 1i32, 2u32), half) && #[trigger] call_ensures(
            M::mul_add,
            (m, q.shift_hz, q.stereo_spread_hz, half),
            hl1,
        );
    assert(half == half1);
    assert((g.opposed)(hl, hl1));
    lemma_turns_opposed(m, g, hl, hl1, rate, l, l1);
    let hr = choose|hz: S| #[trigger] right_hz(m, p, hz) && turns_by(m, hz, rate, r);
    let hr1 = choose|hz: S| #[trigger] right_hz(m, q, hz) && turns_by(m, hz, rate, r1);
    let (h, o) = choose|half: S, off: S|
        call_ensures(M::ratio, (m, 1i32, 2u32), half) && #[trigger] call_ensures(
            M::prod,
            (m, p.stereo_spread_hz, half),
            off,
        ) && call_ensures(M::diff, (m, p.shift_hz, off), hr);
    let (h1, o1) = choose|half: S, off: S|
        call_ensures(M::ratio, (m, 1i32, 2u32), half) && #[trigger] call_ensures(
            M::prod,
            (m, q.stereo_spread_hz, half),
            off,
        ) && call_ensures(M::diff, (m, q.shift_hz, off), hr1);
    assert(h == h1);
    assert((g.same)(h, h1));
    assert((g.opposed)(o, o1));
    assert((g.opposed)(hr, hr1));
    lemma_turns_opposed(m, g, hr, hr1, rate, r, r1);
}

/// Exchanging the sidebands undoes turning the shift round: two new shifters, one
/// with the sidebands of the other exchanged and its shift and spread the other
/// way, give the same numbers.
pub proof fn law_exchanged_sidebands_undo_the_sign<S: Copy, M: SampleMath<S>>(
    m: &M,
    g: Signs<S>,
    p: SsbParams<S>,
    q: SsbParams<S>,
    rate: S,
    a: SsbShifter<S>,
    b: SsbShifter<S>,
    in_l: Seq<S>,
    in_r: Seq<S>,
    out_l: Seq<S>,
    out_r: Seq<S>,
    a1: SsbShifter<S>,
    out2_l: Seq<S>,
    out2_r: Seq<S>,
    b1: SsbShifter<S>,
)
    requires
        repeatable::<S, M>(m),
        signs_cancel(m, g),
        mirror_params(g, p, q),
        ssb_made(m, rate, a),
        ssb_made(m, rate, b),
        ssb_block(m, p, a, in_l, in_r, out_l, out_r, a1),
        ssb_block(m, q, b, in_l, in_r, out2_l, out2_r, b1),
    ensures
        all_same(g, out_l, out2_l),
        all_same(g, out_r, out2_r),
        mirror_states(g, a1.left(), b1.left()),
        mirror_states(g, a1.right(), b1.right()),
{
    let (f1, sl1, sr1) = choose|f: S, sl: S, sr: S| #[trigger]
        ssb_block_by(m, p, a, in_l, in_r, f, sl, sr, out_l, out_r, a1);
    let (f2, sl2, sr2) = choose|f: S, sl: S, sr: S| #[trigger]
        ssb_block_by(m, q, b, in_l, in_r, f, sl, sr, out2_l, out2_r, b1);
    assert(feedback_of(m, p, f2));
    lemma_one_feedback(m, p, f1, f2);
    lemma_steps_opposed(m, g, p, q, rate, sl1, sr1, sl2, sr2);
    lemma_fresh_ssb_alike(m, a, b);
    a.lemma_parts(p, f1, sl1);
    a.lemma_parts(p, f1, sr1);
    b.lemma_parts(q, f2, sl2);
    b.lemma_parts(q, f2, sr2);
    assert(mirror_states(g, a.left(), b.left())) by {
        assert((g.same)(a.left().echo, b.left().echo));
        assert forall|i: int|
            #![trigger a.left().held[i]]
            #![trigger b.left().held[i]]
            0 <= i < a.left().held.len() implies (g.same)(
            a.left().held[i],
            b.left().held[i],
        ) by {}
    }
    assert(mirror_states(g, a.right(), b.right())) by {
        assert((g.same)(a.right().echo, b.right().echo));
        assert forall|i: int|
            #![trigger a.right().held[i]]
            #![trigger b.right().held[i]]
            0 <= i < a.right().held.len() implies (g.same)(
            a.right().held[i],
            b.right().held[i],
        ) by {}
    }
    lemma_mirror_stream(
        m,
        g,
        a.left_tuning(p, f1, sl1),
        b.left_tuning(q, f2, sl2),
        a.left(),
        b.left(),
        in_l,
        out_l,
        a1.left(),
        out2_l,
        b1.left(),
    );
    lemma_mirror_stream(
        m,
        g,
        a.right_tuning(p, f1, sr1),
        b.right_tuning(q, f2, sr2),
        a.right(),
        b.right(),
        in_r,
        out_r,
        a1.right(),
        out2_r,
        b1.right(),
    );
}

} // verus!
