//! The Hilbert transformer that turns a real signal into an analytic one.

use vstd::prelude::*;

use crate::math::{
    accumulated, hann, hann_at, lemma_accumulated_none, lemma_accumulated_push, SampleMath,
};
use crate::ring::{constant, delayed, pushed, Ring};

verus! {

/// `r` is the ideal Hilbert transformer `offset` taps away from its middle, for an
/// odd `offset`: `2 / (pi * offset)`.
pub open spec fn ideal_tap<S, M: SampleMath<S>>(m: &M, offset: i32, r: S) -> bool {
    exists|two: S, pi: S, away: S, angle: S| #[trigger]
        ideal_tap_by(m, offset, two, pi, away, angle, r)
}

/// [`ideal_tap`], with its intermediate values.
pub open spec fn ideal_tap_by<S, M: SampleMath<S>>(
    m: &M,
    offset: i32,
    two: S,
    pi: S,
    away: S,
    angle: S,
    r: S,
) -> bool {
    &&& call_ensures(M::ratio, (m, 2i32, 1u32), two)
    &&& call_ensures(M::half_turn, (m,), pi)
    &&& call_ensures(M::ratio, (m, offset, 1u32), away)
    &&& call_ensures(M::prod, (m, pi, away), angle)
    &&& call_ensures(M::quot, (m, two, angle), r)
}

/// The ideal Hilbert transformer `offset` taps away from its middle.
fn ideal<S: Copy, M: SampleMath<S>>(m: &M, offset: i32) -> (r: S)
    ensures
        ideal_tap(m, offset, r),
{
    let two = m.ratio(2, 1);
    let pi = m.half_turn();
    let away = m.ratio(offset, 1);
    let angle = m.prod(pi, away);
    let r = m.quot(two, angle);
    assert(ideal_tap_by(m, offset, two, pi, away, angle, r));
    r
}

/// `tap` is the `k`-th of `n` taps: zero at even distances from the middle tap,
/// the ideal transformer at odd ones, weighted by a Hann window.
pub open spec fn is_tap<S, M: SampleMath<S>>(m: &M, n: int, k: int, tap: S) -> bool {
    exists|h: S, w: S| #[trigger] is_tap_by(m, n, k, h, w, tap)
}

/// [`is_tap`], with the unweighted tap `h` and the weight `w`.
pub open spec fn is_tap_by<S, M: SampleMath<S>>(
    m: &M,
    n: int,
    k: int,
    h: S,
    w: S,
    tap: S,
) -> bool {
    let offset = k - (n - 1) / 2;
    &&& if offset % 2 == 0 {
        call_ensures(M::ratio, (m, 0i32, 1u32), h)
    } else {
        ideal_tap(m, offset as i32, h)
    }
    &&& hann_at(m, k as usize, (n - 1) as usize, w)
    &&& call_ensures(M::prod, (m, h, w), tap)
}

/// `imag` is the convolution of the taps with what the delay line holds, newest
/// sample first.
pub open spec fn convolved<S, M: SampleMath<S>>(
    m: &M,
    taps: Seq<S>,
    held: Seq<S>,
    zero: S,
    imag: S,
) -> bool {
    accumulated(m, taps, held.reverse(), zero, imag)
}

/// Linear-phase Hilbert transformer (FIR, odd length, Hann-windowed).
///
/// For each input sample, returns `(real_delayed, imag)`: the analytic-signal
/// pair, where `real_delayed` is the input delayed by `(N-1)/2` samples to
/// time-align with the FIR output.
pub struct HilbertFir<S> {
    taps: Vec<S>,
    delay: Ring<S>,
    zero: S,
    group_delay: usize,
}

impl<S: Copy> HilbertFir<S> {
    /// The taps, the one for the newest sample first.
    pub closed spec fn taps(&self) -> Seq<S> {
        self.taps@
    }

    /// The last samples, oldest first.
    pub closed spec fn held(&self) -> Seq<S> {
        self.delay@
    }

    /// The value that stands for silence.
    pub closed spec fn zero(&self) -> S {
        self.zero
    }

    /// One sample is held per tap, there is an odd number of taps, and the
    /// delay is half of their span.
    pub closed spec fn wf(&self) -> bool {
        &&& self.delay.wf()
        &&& self.delay@.len() == self.taps@.len()
        &&& self.taps@.len() % 2 == 1
        &&& self.group_delay == (self.taps@.len() - 1) / 2
    }

    /// By how many samples the real part lags behind the input.
    pub open spec fn lag(&self) -> int {
        (self.taps().len() - 1) / 2
    }

    /// Nothing but silence is held.
    pub open spec fn silent(&self) -> bool {
        self.held() == constant(self.taps().len(), self.zero())
    }

    /// Everything but what is held stays as it is.
    pub open spec fn same_filter(&self, other: &Self) -> bool {
        &&& self.taps() == other.taps()
        &&& self.zero() == other.zero()
    }

    /// What is known of every filter.
    pub proof fn lemma_shape(&self)
        requires
            self.wf(),
        ensures
            self.held().len() == self.taps().len(),
            self.taps().len() % 2 == 1,
    {
    }

    /// A filter of `n_taps` taps that holds silence.
    pub fn new<M: SampleMath<S>>(m: &M, n_taps: usize) -> (r: Self)
        requires
            n_taps % 2 == 1,
            n_taps <= i32::MAX,
        ensures
            r.wf(),
            r.taps().len() == n_taps,
            forall|k: int| 0 <= k < n_taps ==> is_tap(m, n_taps as int, k, #[trigger] r.taps()[k]),
            call_ensures(M::ratio, (m, 0i32, 1u32), r.zero()),
            r.silent(),
    {
        let mid: usize = (n_taps - 1) / 2;
        let mut taps: Vec<S> = Vec::new();
        let mut k: usize = 0;
        while k < n_taps
            invariant
                n_taps % 2 == 1,
                n_taps <= i32::MAX,
                mid == (n_taps - 1) / 2,
                k <= n_taps,
                taps@.len() == k,
                forall|j: int| 0 <= j < k ==> is_tap(m, n_taps as int, j, #[trigger] taps@[j]),
            decreases n_taps - k,
        {
            let offset: i32 = k as i32 - mid as i32;
            let h = if k % 2 == mid % 2 {
                m.ratio(0, 1)
            } else {
                ideal(m, offset)
            };
            // Hann window to keep the impulse response well-behaved on truncation.
            let w = hann(m, k, n_taps - 1);
            let tap = m.prod(h, w);
            assert(is_tap_by(m, n_taps as int, k as int, h, w, tap));
            taps.push(tap);
            k = k + 1;
        }
        let zero = m.ratio(0, 1);
        HilbertFir { taps, delay: Ring::new(n_taps, zero), zero, group_delay: mid }
    }

    /// By how many samples the real part lags behind the input.
    pub fn group_delay(&self) -> (d: usize)
        requires
            self.wf(),
        ensures
            d == self.lag(),
    {
        self.group_delay
    }

    /// The value that stands for silence.
    pub fn silence(&self) -> (z: S)
        ensures
            z == self.zero(),
    {
        self.zero
    }

    /// Takes one sample in and gives the analytic pair `(real_delayed, imag)`.
    pub fn process<M: SampleMath<S>>(&mut self, m: &M, x: S) -> (pair: (S, S))
        requires
            old(self).wf(),
        ensures
            final(self).wf(),
            final(self).same_filter(old(self)),
            final(self).held() == pushed(old(self).held(), x),
            pair.0 == delayed(final(self).held(), final(self).lag()),
            convolved(m, final(self).taps(), final(self).held(), final(self).zero(), pair.1),
    {
        self.delay.push(x);
        let n = self.taps.len();
        let mut imag = self.zero;
        let mut k: usize = 0;
        proof {
            lemma_accumulated_none(m, self.zero);
            assert(self.taps@.take(0) =~= Seq::<S>::empty());
            assert(self.delay@.reverse().take(0) =~= Seq::<S>::empty());
        }
        while k < n
            invariant
                self.wf(),
                n == self.taps@.len(),
                k <= n,
                accumulated(
                    m,
                    self.taps@.take(k as int),
                    self.delay@.reverse().take(k as int),
                    self.zero,
                    imag,
                ),
            decreases n - k,
        {
            let x = self.delay.recent(k);
            let next = m.mul_add(imag, self.taps[k], x);
            proof {
                let t = self.taps@;
                let h = self.delay@.reverse();
                lemma_accumulated_push(
                    m,
                    t.take(k as int),
                    h.take(k as int),
                    self.zero,
                    imag,
                    t[k as int],
                    h[k as int],
                    next,
                );
                assert(t.take(k + 1) =~= t.take(k as int).push(t[k as int]));
                assert(h.take(k + 1) =~= h.take(k as int).push(h[k as int]));
            }
            imag = next;
            k = k + 1;
        }
        proof {
            assert(self.taps@.take(n as int) =~= self.taps@);
            assert(self.delay@.reverse().take(n as int) =~= self.delay@.reverse());
        }
        let aligned = self.delay.recent(self.group_delay);
        (aligned, imag)
    }

    /// Forgets every sample.
    pub fn reset(&mut self)
        requires
            old(self).wf(),
        ensures
            final(self).wf(),
            final(self).same_filter(old(self)),
            final(self).silent(),
    {
        self.delay.fill(self.zero);
    }
}

} // verus!
