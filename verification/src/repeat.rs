//! Arithmetic that gives the same result for the same arguments, and what is then
//! known of everything that is computed with it.

use vstd::prelude::*;

use crate::frame::Frame;
use crate::math::{
    accumulated, accumulated_by, added_up, added_up_by, blended, clamped, hann_at, rates_apart,
    turns_by, unwound, wrapped, wrapped_by, wrapped_in_half_turn, wrapped_in_turn, BinMath,
    SampleMath,
};
use crate::stream::{lemma_streamed_pop, streamed, Stepper};

verus! {

/// Equal arguments give equal results.
pub open spec fn repeatable<S, M: SampleMath<S>>(m: &M) -> bool {
    &&& forall|n: i32, d: u32, r: S, s: S|
        #![trigger call_ensures(M::ratio, (m, n, d), r), call_ensures(M::ratio, (m, n, d), s)]
        call_ensures(M::ratio, (m, n, d), r) && call_ensures(M::ratio, (m, n, d), s) ==> r == s
    &&& forall|n: usize, r: S, s: S|
        #![trigger call_ensures(M::count, (m, n), r), call_ensures(M::count, (m, n), s)]
        call_ensures(M::count, (m, n), r) && call_ensures(M::count, (m, n), s) ==> r == s
    &&& forall|a: S, b: S, r: S, s: S|
        #![trigger call_ensures(M::sum, (m, a, b), r), call_ensures(M::sum, (m, a, b), s)]
        call_ensures(M::sum, (m, a, b), r) && call_ensures(M::sum, (m, a, b), s) ==> r == s
    &&& forall|a: S, b: S, r: S, s: S|
        #![trigger call_ensures(M::diff, (m, a, b), r), call_ensures(M::diff, (m, a, b), s)]
        call_ensures(M::diff, (m, a, b), r) && call_ensures(M::diff, (m, a, b), s) ==> r == s
    &&& forall|a: S, b: S, r: S, s: S|
        #![trigger call_ensures(M::prod, (m, a, b), r), call_ensures(M::prod, (m, a, b), s)]
        call_ensures(M::prod, (m, a, b), r) && call_ensures(M::prod, (m, a, b), s) ==> r == s
    &&& forall|a: S, b: S, r: S, s: S|
        #![trigger call_ensures(M::quot, (m, a, b), r), call_ensures(M::quot, (m, a, b), s)]
        call_ensures(M::quot, (m, a, b), r) && call_ensures(M::quot, (m, a, b), s) ==> r == s
    &&& forall|a: S, b: S, c: S, r: S, s: S|
        #![trigger call_ensures(M::mul_add, (m, a, b, c), r), call_ensures(M::mul_add, (m, a, b, c), s)]
        call_ensures(M::mul_add, (m, a, b, c), r) && call_ensures(M::mul_add, (m, a, b, c), s)
            ==> r == s
    &&& forall|a: S, r: S, s: S|
        #![trigger call_ensures(M::magnitude, (m, a), r), call_ensures(M::magnitude, (m, a), s)]
        call_ensures(M::magnitude, (m, a), r) && call_ensures(M::magnitude, (m, a), s) ==> r == s
    &&& forall|a: S, r: S, s: S|
        #![trigger call_ensures(M::opposite, (m, a), r), call_ensures(M::opposite, (m, a), s)]
        call_ensures(M::opposite, (m, a), r) && call_ensures(M::opposite, (m, a), s) ==> r == s
    &&& forall|a: S, b: S, r: bool, s: bool|
        #![trigger call_ensures(M::less, (m, a, b), r), call_ensures(M::less, (m, a, b), s)]
        call_ensures(M::less, (m, a, b), r) && call_ensures(M::less, (m, a, b), s) ==> r == s
    &&& forall|a: S, b: S, r: bool, s: bool|
        #![trigger call_ensures(M::at_most, (m, a, b), r), call_ensures(M::at_most, (m, a, b), s)]
        call_ensures(M::at_most, (m, a, b), r) && call_ensures(M::at_most, (m, a, b), s)
            ==> r == s
    &&& forall|r: S, s: S|
        #![trigger call_ensures(M::half_turn, (m,), r), call_ensures(M::half_turn, (m,), s)]
        call_ensures(M::half_turn, (m,), r) && call_ensures(M::half_turn, (m,), s) ==> r == s
    &&& forall|r: S, s: S|
        #![trigger call_ensures(M::full_turn, (m,), r), call_ensures(M::full_turn, (m,), s)]
        call_ensures(M::full_turn, (m,), r) && call_ensures(M::full_turn, (m,), s) ==> r == s
    &&& forall|a: S, r: S, s: S|
        #![trigger call_ensures(M::cosine, (m, a), r), call_ensures(M::cosine, (m, a), s)]
        call_ensures(M::cosine, (m, a), r) && call_ensures(M::cosine, (m, a), s) ==> r == s
    &&& forall|a: S, r: (S, S), s: (S, S)|
        #![trigger call_ensures(M::sin_cos, (m, a), r), call_ensures(M::sin_cos, (m, a), s)]
        call_ensures(M::sin_cos, (m, a), r) && call_ensures(M::sin_cos, (m, a), s) ==> r == s
    &&& forall|a: S, r: usize, s: usize|
        #![trigger call_ensures(M::floor_index, (m, a), r), call_ensures(M::floor_index, (m, a), s)]
        call_ensures(M::floor_index, (m, a), r) && call_ensures(M::floor_index, (m, a), s)
            ==> r == s
}

/// Equal arguments give equal results, on samples and on bins. Frames are equal
/// where they hold the same values.
pub open spec fn repeatable_bins<S, C, M: BinMath<S, C>>(m: &M) -> bool {
    &&& repeatable::<S, M>(m)
    &&& forall|a: S, r: C, s: C|
        #![trigger call_ensures(M::bin, (m, a), r), call_ensures(M::bin, (m, a), s)]
        call_ensures(M::bin, (m, a), r) && call_ensures(M::bin, (m, a), s) ==> r == s
    &&& forall|a: C, r: S, s: S|
        #![trigger call_ensures(M::bin_re, (m, a), r), call_ensures(M::bin_re, (m, a), s)]
        call_ensures(M::bin_re, (m, a), r) && call_ensures(M::bin_re, (m, a), s) ==> r == s
    &&& forall|a: C, b: C, r: C, s: C|
        #![trigger call_ensures(M::bin_sum, (m, a, b), r), call_ensures(M::bin_sum, (m, a, b), s)]
        call_ensures(M::bin_sum, (m, a, b), r) && call_ensures(M::bin_sum, (m, a, b), s)
            ==> r == s
    &&& forall|a: C, b: S, r: C, s: C|
        #![trigger call_ensures(M::bin_scale, (m, a, b), r), call_ensures(M::bin_scale, (m, a, b), s)]
        call_ensures(M::bin_scale, (m, a, b), r) && call_ensures(M::bin_scale, (m, a, b), s)
            ==> r == s
    &&& forall|a: S, b: S, r: C, s: C|
        #![trigger call_ensures(M::bin_pair, (m, a, b), r), call_ensures(M::bin_pair, (m, a, b), s)]
        call_ensures(M::bin_pair, (m, a, b), r) && call_ensures(M::bin_pair, (m, a, b), s)
            ==> r == s
    &&& forall|a: C, b: C, r: C, s: C|
        #![trigger call_ensures(M::bin_prod, (m, a, b), r), call_ensures(M::bin_prod, (m, a, b), s)]
        call_ensures(M::bin_prod, (m, a, b), r) && call_ensures(M::bin_prod, (m, a, b), s)
            ==> r == s
    &&& forall|a: C, r: C, s: C|
        #![trigger call_ensures(M::bin_conj, (m, a), r), call_ensures(M::bin_conj, (m, a), s)]
        call_ensures(M::bin_conj, (m, a), r) && call_ensures(M::bin_conj, (m, a), s) ==> r == s
    &&& forall|f: Frame<C>, g: Frame<C>, r: Frame<C>, s: Frame<C>|
        #![trigger call_ensures(M::forward, (m, f), r), call_ensures(M::forward, (m, g), s)]
        f@ == g@ && call_ensures(M::forward, (m, f), r) && call_ensures(M::forward, (m, g), s)
            ==> r@ == s@
    &&& forall|f: Frame<C>, g: Frame<C>, r: Frame<C>, s: Frame<C>|
        #![trigger call_ensures(M::inverse, (m, f), r), call_ensures(M::inverse, (m, g), s)]
        f@ == g@ && call_ensures(M::inverse, (m, f), r) && call_ensures(M::inverse, (m, g), s)
            ==> r@ == s@
}

/// A value is held to a range in one way.
pub proof fn lemma_one_clamped<S, M: SampleMath<S>>(m: &M, x: S, lo: S, hi: S, r: S, s: S)
    requires
        repeatable::<S, M>(m),
        clamped(m, x, lo, hi, r),
        clamped(m, x, lo, hi, s),
    ensures
        r == s,
{
}

/// Nothing is below itself.
pub open spec fn never_below_itself<S, M: SampleMath<S>>(m: &M) -> bool {
    forall|a: S, below: bool|
        #![trigger call_ensures(M::less, (m, a, a), below)]
        call_ensures(M::less, (m, a, a), below) ==> !below
}

/// What is held to a range already is not changed by holding it to the range again.
pub proof fn law_clamping_twice_is_clamping_once<S, M: SampleMath<S>>(
    m: &M,
    x: S,
    lo: S,
    hi: S,
    once: S,
    twice: S,
)
    requires
        repeatable::<S, M>(m),
        never_below_itself::<S, M>(m),
        clamped(m, x, lo, hi, once),
        clamped(m, once, lo, hi, twice),
    ensures
        twice == once,
{
}

/// There is one blend.
pub proof fn lemma_one_blended<S, M: SampleMath<S>>(m: &M, mix: S, dry: S, wet: S, r: S, s: S)
    requires
        repeatable::<S, M>(m),
        blended(m, mix, dry, wet, r),
        blended(m, mix, dry, wet, s),
    ensures
        r == s,
{
    reveal(blended);
}

/// Two rates are apart or not.
pub proof fn lemma_one_rates_apart<S, M: SampleMath<S>>(m: &M, a: S, b: S, r: bool, s: bool)
    requires
        repeatable::<S, M>(m),
        rates_apart(m, a, b, r),
        rates_apart(m, a, b, s),
    ensures
        r == s,
{
}

/// There is one Hann window.
pub proof fn lemma_one_hann<S, M: SampleMath<S>>(m: &M, k: usize, period: usize, r: S, s: S)
    requires
        repeatable::<S, M>(m),
        hann_at(m, k, period, r),
        hann_at(m, k, period, s),
    ensures
        r == s,
{
}

/// There is one step for a frequency.
pub proof fn lemma_one_turn<S, M: SampleMath<S>>(m: &M, hz: S, rate: S, r: S, s: S)
    requires
        repeatable::<S, M>(m),
        turns_by(m, hz, rate, r),
        turns_by(m, hz, rate, s),
    ensures
        r == s,
{
}

/// Products add up to one thing.
pub proof fn lemma_one_accumulated<S, M: SampleMath<S>>(
    m: &M,
    a: Seq<S>,
    b: Seq<S>,
    start: S,
    r: S,
    s: S,
)
    requires
        repeatable::<S, M>(m),
        accumulated(m, a, b, start, r),
        accumulated(m, a, b, start, s),
    ensures
        r == s,
{
    let p = choose|p: Seq<S>| #[trigger] accumulated_by(m, a, b, start, p, r);
    let q = choose|q: Seq<S>| #[trigger] accumulated_by(m, a, b, start, q, s);
    lemma_same_partial_products(m, a, b, start, p, r, q, s, a.len() as int);
}

/// They do so all the way.
proof fn lemma_same_partial_products<S, M: SampleMath<S>>(
    m: &M,
    a: Seq<S>,
    b: Seq<S>,
    start: S,
    p: Seq<S>,
    r: S,
    q: Seq<S>,
    s: S,
    k: int,
)
    requires
        repeatable::<S, M>(m),
        accumulated_by(m, a, b, start, p, r),
        accumulated_by(m, a, b, start, q, s),
        0 <= k <= a.len(),
    ensures
        p[k] == q[k],
    decreases k,
{
    if k > 0 {
        lemma_same_partial_products(m, a, b, start, p, r, q, s, k - 1);
        assert(call_ensures(M::mul_add, (m, p[k - 1], a[k - 1], b[k - 1]), p[k - 1 + 1]));
        assert(call_ensures(M::mul_add, (m, q[k - 1], a[k - 1], b[k - 1]), q[k - 1 + 1]));
    }
}

/// Values add up to one thing.
pub proof fn lemma_one_added_up<S, M: SampleMath<S>>(m: &M, xs: Seq<S>, start: S, r: S, s: S)
    requires
        repeatable::<S, M>(m),
        added_up(m, xs, start, r),
        added_up(m, xs, start, s),
    ensures
        r == s,
{
    let p = choose|p: Seq<S>| #[trigger] added_up_by(m, xs, start, p, r);
    let q = choose|q: Seq<S>| #[trigger] added_up_by(m, xs, start, q, s);
    lemma_same_partial_sums(m, xs, start, p, r, q, s, xs.len() as int);
}

/// They do so all the way.
proof fn lemma_same_partial_sums<S, M: SampleMath<S>>(
    m: &M,
    xs: Seq<S>,
    start: S,
    p: Seq<S>,
    r: S,
    q: Seq<S>,
    s: S,
    k: int,
)
    requires
        repeatable::<S, M>(m),
        added_up_by(m, xs, start, p, r),
        added_up_by(m, xs, start, q, s),
        0 <= k <= xs.len(),
    ensures
        p[k] == q[k],
    decreases k,
{
    if k > 0 {
        lemma_same_partial_sums(m, xs, start, p, r, q, s, k - 1);
        assert(call_ensures(M::sum, (m, p[k - 1], xs[k - 1]), p[k - 1 + 1]));
        assert(call_ensures(M::sum, (m, q[k - 1], xs[k - 1]), q[k - 1 + 1]));
    }
}

/// There is one next step of unwinding.
pub proof fn lemma_one_unwound<S, M: SampleMath<S>>(
    m: &M,
    angle: S,
    bound: S,
    r: Option<S>,
    s: Option<S>,
)
    requires
        repeatable::<S, M>(m),
        unwound(m, angle, bound, r),
        unwound(m, angle, bound, s),
    ensures
        r == s,
{
}

/// An angle wraps to one angle.
pub proof fn lemma_one_wrapped<S, M: SampleMath<S>>(m: &M, angle: S, bound: S, r: S, s: S)
    requires
        repeatable::<S, M>(m),
        wrapped(m, angle, bound, r),
        wrapped(m, angle, bound, s),
    ensures
        r == s,
{
    reveal(wrapped);
    let c = choose|c: Seq<S>| #[trigger] wrapped_by(m, angle, bound, c, r);
    let d = choose|d: Seq<S>| #[trigger] wrapped_by(m, angle, bound, d, s);
    if c.len() <= d.len() {
        lemma_same_chain(m, angle, bound, c, r, d, s, c.len() - 1);
        if c.len() < d.len() {
            assert(unwound(m, d[c.len() - 1], bound, Some(d[c.len() - 1 + 1])));
            lemma_one_unwound(m, r, bound, None, Some(d[c.len() as int]));
        }
    } else {
        lemma_same_chain(m, angle, bound, c, r, d, s, d.len() - 1);
        assert(unwound(m, c[d.len() - 1], bound, Some(c[d.len() - 1 + 1])));
        lemma_one_unwound(m, s, bound, None, Some(c[d.len() as int]));
    }
}

/// It does so through the same angles.
proof fn lemma_same_chain<S, M: SampleMath<S>>(
    m: &M,
    angle: S,
    bound: S,
    c: Seq<S>,
    r: S,
    d: Seq<S>,
    s: S,
    k: int,
)
    requires
        repeatable::<S, M>(m),
        wrapped_by(m, angle, bound, c, r),
        wrapped_by(m, angle, bound, d, s),
        0 <= k < c.len(),
        k < d.len(),
    ensures
        c[k] == d[k],
    decreases k,
{
    if k > 0 {
        lemma_same_chain(m, angle, bound, c, r, d, s, k - 1);
        assert(unwound(m, c[k - 1], bound, Some(c[k - 1 + 1])));
        assert(unwound(m, d[k - 1], bound, Some(d[k - 1 + 1])));
        lemma_one_unwound(m, c[k - 1], bound, Some(c[k]), Some(d[k]));
    }
}

/// An angle wraps to one angle within a turn.
pub proof fn lemma_one_wrapped_in_turn<S, M: SampleMath<S>>(m: &M, angle: S, r: S, s: S)
    requires
        repeatable::<S, M>(m),
        wrapped_in_turn(m, angle, r),
        wrapped_in_turn(m, angle, s),
    ensures
        r == s,
{
    let b = choose|b: S|
        call_ensures(M::full_turn, (m,), b) && #[trigger] wrapped(m, angle, b, r);
    let c = choose|c: S|
        call_ensures(M::full_turn, (m,), c) && #[trigger] wrapped(m, angle, c, s);
    assert(b == c);
    lemma_one_wrapped(m, angle, b, r, s);
}

/// An angle wraps to one angle within half a turn.
pub proof fn lemma_one_wrapped_in_half_turn<S, M: SampleMath<S>>(m: &M, angle: S, r: S, s: S)
    requires
        repeatable::<S, M>(m),
        wrapped_in_half_turn(m, angle, r),
        wrapped_in_half_turn(m, angle, s),
    ensures
        r == s,
{
    let b = choose|b: S|
        call_ensures(M::half_turn, (m,), b) && #[trigger] wrapped(m, angle, b, r);
    let c = choose|c: S|
        call_ensures(M::half_turn, (m,), c) && #[trigger] wrapped(m, angle, c, s);
    assert(b == c);
    lemma_one_wrapped(m, angle, b, r, s);
}

/// Whatever `rel` relates, the two machines take to what `rel` relates, and what
/// they give is related by `same`.
pub open spec fn in_step<V, S>(
    one: Stepper<V, S>,
    other: Stepper<V, S>,
    rel: spec_fn(V, V) -> bool,
    same: spec_fn(S, S) -> bool,
) -> bool {
    forall|a: V, b: V, x: S, next_a: V, out_a: S, next_b: V, out_b: S|
        #![trigger one(a, x, next_a, out_a), other(b, x, next_b, out_b)]
        rel(a, b) && one(a, x, next_a, out_a) && other(b, x, next_b, out_b) ==> rel(
            next_a,
            next_b,
        ) && same(out_a, out_b)
}

/// Machines in step stay in step, however long the input is.
pub proof fn law_machines_stay_in_step<V, S>(
    one: Stepper<V, S>,
    other: Stepper<V, S>,
    rel: spec_fn(V, V) -> bool,
    same: spec_fn(S, S) -> bool,
    from_a: V,
    from_b: V,
    ins: Seq<S>,
    outs_a: Seq<S>,
    to_a: V,
    outs_b: Seq<S>,
    to_b: V,
)
    requires
        in_step(one, other, rel, same),
        rel(from_a, from_b),
        streamed(one, from_a, ins, outs_a, to_a),
        streamed(other, from_b, ins, outs_b, to_b),
    ensures
        outs_a.len() == outs_b.len(),
        forall|i: int|
            #![trigger outs_a[i]]
            #![trigger outs_b[i]]
            0 <= i < outs_a.len() ==> same(outs_a[i], outs_b[i]),
        rel(to_a, to_b),
    decreases ins.len(),
{
    if ins.len() > 0 {
        let mid_a = lemma_streamed_pop(one, from_a, ins, outs_a, to_a);
        let mid_b = lemma_streamed_pop(other, from_b, ins, outs_b, to_b);
        law_machines_stay_in_step(
            one,
            other,
            rel,
            same,
            from_a,
            from_b,
            ins.drop_last(),
            outs_a.drop_last(),
            mid_a,
            outs_b.drop_last(),
            mid_b,
        );
        assert(one(mid_a, ins.last(), to_a, outs_a.last()));
        assert(other(mid_b, ins.last(), to_b, outs_b.last()));
        assert forall|i: int|
            #![trigger outs_a[i]]
            #![trigger outs_b[i]]
            0 <= i < outs_a.len() implies same(outs_a[i], outs_b[i]) by {
            if i < outs_a.len() - 1 {
                assert(outs_a.drop_last()[i] == outs_a[i]);
                assert(outs_b.drop_last()[i] == outs_b[i]);
            }
        }
    }
}

/// An angle that lies within the bound is left as it is.
pub proof fn law_wrapping_leaves_what_lies_within<S, M: SampleMath<S>>(
    m: &M,
    angle: S,
    bound: S,
    r: S,
)
    requires
        repeatable::<S, M>(m),
        unwound(m, angle, bound, None),
        wrapped(m, angle, bound, r),
    ensures
        r == angle,
{
    reveal(wrapped);
    assert(wrapped_by(m, angle, bound, seq![angle], angle));
    lemma_one_wrapped(m, angle, bound, r, angle);
}

/// Wrapping twice is wrapping once, where the first time came to an end.
pub proof fn law_wrapping_twice_is_wrapping_once<S, M: SampleMath<S>>(
    m: &M,
    angle: S,
    bound: S,
    once: S,
    twice: S,
)
    requires
        repeatable::<S, M>(m),
        wrapped(m, angle, bound, once),
        unwound(m, once, bound, None),
        wrapped(m, once, bound, twice),
    ensures
        twice == once,
{
    law_wrapping_leaves_what_lies_within(m, once, bound, twice);
}

} // verus!
