//! The FFT-based shifter.

use vstd::prelude::*;

use crate::dsp::bins::{half_shifted, mirror, mirrored, shift_half, BinTuning, N_POS};
use crate::dsp::cola::{cola_of, compute_cola};
pub use crate::dsp::modes::{SpecMode, SpecParams};
use crate::frame::Frame;
pub use crate::frame::FFT_SIZE;
use crate::math::{
    blend, blended, hann, hann_at, phase_step, rate_changed, rates_apart, turns_by, BinMath,
    SampleMath,
};
use crate::ring::{constant, delayed, pushed, Ring};
use crate::value_laws::{lemma_rate_follows, rate_follows};
use crate::stream::{lemma_streamed_none, lemma_streamed_push, streamed, Stepper};

verus! {

/// The hops that the user can choose from.
pub const HOP_OPTIONS: [usize; 5] = [64, 128, 256, 512, 1024];

/// The shortest hop.
pub const MIN_HOP: usize = 16;

/// The hop that a new shifter has.
pub const DEFAULT_HOP: usize = 512;

/// `hop`, held to the range from [`MIN_HOP`] to a whole frame.
pub open spec fn allowed_hop(hop: int) -> int {
    if hop < MIN_HOP {
        MIN_HOP as int
    } else if hop > FFT_SIZE {
        FFT_SIZE as int
    } else {
        hop
    }
}

/// What one channel remembers.
pub struct ChanState<S> {
    /// The last frame of input, oldest sample first.
    pub held: Seq<S>,
    /// The next frame of output, as far as it is known, next sample first.
    pub pending: Seq<S>,
    /// How many samples came in since the last hop.
    pub since: int,
    /// The phase that each bin of the positive half has gathered.
    pub phases: Seq<S>,
}

/// What is the same for all samples of a block.
pub struct ChanTuning<S> {
    pub params: SpecParams<S>,
    pub rate: S,
    pub hop: int,
    pub win_a: Seq<S>,
    pub win_s: Seq<S>,
    pub cola: S,
    pub zero: S,
}

/// `c` is the sample `x` under the window `w`, as a bin.
pub open spec fn windowed<S, C, M: BinMath<S, C>>(m: &M, x: S, w: S, c: C) -> bool {
    exists|y: S| #[trigger]
        call_ensures(M::prod, (m, x, w), y) && call_ensures(M::bin, (m, y), c)
}

/// `frame` is what is held, under the analysis window.
pub open spec fn analysed<S, C, M: BinMath<S, C>>(
    m: &M,
    held: Seq<S>,
    win: Seq<S>,
    frame: Seq<C>,
) -> bool {
    &&& frame.len() == FFT_SIZE
    &&& forall|k: int| 0 <= k < FFT_SIZE ==> windowed(m, held[k], win[k], #[trigger] frame[k])
}

/// `r` is `before` plus the real part of `c`, normalised by `share`, under the
/// window `w` and scaled by `cola`.
pub open spec fn overlapped<S, C, M: BinMath<S, C>>(
    m: &M,
    before: S,
    c: C,
    share: S,
    w: S,
    cola: S,
    r: S,
) -> bool {
    exists|re: S, normal: S, shaped: S, scaled: S| #[trigger]
        overlapped_by(m, before, c, share, w, cola, re, normal, shaped, scaled, r)
}

/// [`overlapped`], with its intermediate values.
pub open spec fn overlapped_by<S, C, M: BinMath<S, C>>(
    m: &M,
    before: S,
    c: C,
    share: S,
    w: S,
    cola: S,
    re: S,
    normal: S,
    shaped: S,
    scaled: S,
    r: S,
) -> bool {
    &&& call_ensures(M::bin_re, (m, c), re)
    &&& call_ensures(M::prod, (m, re, share), normal)
    &&& call_ensures(M::prod, (m, normal, w), shaped)
    &&& call_ensures(M::prod, (m, shaped, cola), scaled)
    &&& call_ensures(M::sum, (m, before, scaled), r)
}

/// `after` is `pending` with the synthesised frame `time` laid over it.
pub open spec fn overlap_added<S, C, M: BinMath<S, C>>(
    m: &M,
    pending: Seq<S>,
    time: Seq<C>,
    share: S,
    win: Seq<S>,
    cola: S,
    after: Seq<S>,
) -> bool {
    &&& after.len() == FFT_SIZE
    &&& forall|k: int|
        0 <= k < FFT_SIZE ==> overlapped(
            m,
            pending[k],
            time[k],
            share,
            win[k],
            cola,
            #[trigger] after[k],
        )
}

/// What one hop works with: the distance of two bins in Hz, how far one Hz turns
/// from one hop to the next, and one over the frame length.
pub open spec fn hop_scales<S, M: SampleMath<S>>(
    m: &M,
    t: ChanTuning<S>,
    hz: S,
    turn: S,
    share: S,
) -> bool {
    exists|size: S, hop: S, one: S| #[trigger]
        hop_scales_by(m, t, size, hop, one, hz, turn, share)
}

/// [`hop_scales`], with its intermediate values.
pub open spec fn hop_scales_by<S, M: SampleMath<S>>(
    m: &M,
    t: ChanTuning<S>,
    size: S,
    hop: S,
    one: S,
    hz: S,
    turn: S,
    share: S,
) -> bool {
    &&& call_ensures(M::count, (m, FFT_SIZE), size)
    &&& call_ensures(M::quot, (m, t.rate, size), hz)
    &&& call_ensures(M::count, (m, t.hop as usize), hop)
    &&& turns_by(m, hop, t.rate, turn)
    &&& call_ensures(M::ratio, (m, 1i32, 1u32), one)
    &&& call_ensures(M::quot, (m, one, size), share)
}

/// One hop takes the channel from `s` to `next`: the windowed frame is
/// transformed, shifted, mirrored, transformed back, and laid over the pending
/// output.
#[verifier::opaque]
pub open spec fn hopped<S, C, M: BinMath<S, C>>(
    m: &M,
    t: ChanTuning<S>,
    s: ChanState<S>,
    next: ChanState<S>,
) -> bool {
    exists|
        hz: S,
        turn: S,
        share: S,
        frame: Frame<C>,
        spectrum: Frame<C>,
        half: Seq<C>,
        full: Frame<C>,
        time: Frame<C>,
    | #[trigger]
        hopped_by(m, t, s, hz, turn, share, frame, spectrum, half, full, time, next)
}

/// [`hopped`], with its intermediate values.
pub open spec fn hopped_by<S, C, M: BinMath<S, C>>(
    m: &M,
    t: ChanTuning<S>,
    s: ChanState<S>,
    hz: S,
    turn: S,
    share: S,
    frame: Frame<C>,
    spectrum: Frame<C>,
    half: Seq<C>,
    full: Frame<C>,
    time: Frame<C>,
    next: ChanState<S>,
) -> bool {
    &&& hop_scales(m, t, hz, turn, share)
    &&& analysed(m, s.held, t.win_a, frame@)
    &&& call_ensures(M::forward, (m, frame), spectrum)
    &&& half_shifted(
        m,
        (BinTuning { params: t.params, hz, turn, zero: t.zero }),
        spectrum@,
        s.phases,
        next.phases,
        half,
    )
    &&& mirrored(m, half, full@)
    &&& call_ensures(M::inverse, (m, full), time)
    &&& overlap_added(m, s.pending, time@, share, t.win_s, t.cola, next.pending)
    &&& next.held == s.held
    &&& next.since == s.since
}

/// The state once `x` is taken in: the count starts over at every hop.
pub open spec fn taken<S>(hop: int, s: ChanState<S>, x: S) -> ChanState<S> {
    ChanState {
        held: pushed(s.held, x),
        pending: s.pending,
        since: if s.since + 1 >= hop {
            0
        } else {
            s.since + 1
        },
        phases: s.phases,
    }
}

/// The state once the next output sample is given away.
pub open spec fn given<S>(zero: S, s: ChanState<S>) -> ChanState<S> {
    ChanState { held: s.held, pending: pushed(s.pending, zero), since: s.since, phases: s.phases }
}

/// The dry signal once `x` is taken in: the input, a frame less a hop late.
pub open spec fn dry_of<S>(hop: int, s: ChanState<S>, x: S) -> S {
    delayed(pushed(s.held, x), FFT_SIZE - hop)
}

/// The channel takes `x` in state `s` and gives `out` in state `next`. A hop is
/// run whenever the count has started over.
pub open spec fn chan_step<S, C, M: BinMath<S, C>>(
    m: &M,
    t: ChanTuning<S>,
    s: ChanState<S>,
    x: S,
    next: ChanState<S>,
    out: S,
) -> bool {
    exists|mid: ChanState<S>| #[trigger] chan_step_by::<S, C, M>(m, t, s, x, mid, next, out)
}

/// [`chan_step`], with the state just before the output sample is given away.
pub open spec fn chan_step_by<S, C, M: BinMath<S, C>>(
    m: &M,
    t: ChanTuning<S>,
    s: ChanState<S>,
    x: S,
    mid: ChanState<S>,
    next: ChanState<S>,
    out: S,
) -> bool {
    let took = taken(t.hop, s, x);
    &&& if took.since == 0 {
        hopped::<S, C, M>(m, t, took, mid)
    } else {
        mid == took
    }
    &&& next == given(t.zero, mid)
    &&& blended(m, t.params.mix, dry_of(t.hop, s, x), mid.pending[0], out)
}

/// [`chan_step`] as a machine.
pub open spec fn chan_stepper<S, C, M: BinMath<S, C>>(
    m: &M,
    t: ChanTuning<S>,
) -> Stepper<ChanState<S>, S> {
    |s: ChanState<S>, x: S, next: ChanState<S>, out: S|
        chan_step::<S, C, M>(m, t, s, x, next, out)
}

/// The state of a channel that has heard nothing.
pub open spec fn quiet<S>(zero: S) -> ChanState<S> {
    ChanState {
        held: constant(FFT_SIZE as nat, zero),
        pending: constant(FFT_SIZE as nat, zero),
        since: 0,
        phases: constant(N_POS as nat, zero),
    }
}

/// The lengths that every state has, and the count that has not reached a hop.
pub open spec fn chan_ok<S>(hop: int, s: ChanState<S>) -> bool {
    &&& s.held.len() == FFT_SIZE
    &&& s.pending.len() == FFT_SIZE
    &&& s.phases.len() == N_POS
    &&& 0 <= s.since < hop
}

/// One channel.
struct SpecChannel<S> {
    in_ring: Ring<S>,
    out_ring: Ring<S>,
    hop_counter: usize,
    phase_acc: Vec<S>,
}

impl<S: Copy> SpecChannel<S> {
    spec fn wf(&self, hop: int) -> bool {
        &&& self.in_ring.wf()
        &&& self.out_ring.wf()
        &&& chan_ok(hop, self.state())
    }

    spec fn state(&self) -> ChanState<S> {
        ChanState {
            held: self.in_ring@,
            pending: self.out_ring@,
            since: self.hop_counter as int,
            phases: self.phase_acc@,
        }
    }

    fn new(zero: S) -> (r: Self)
        ensures
            r.in_ring.wf(),
            r.out_ring.wf(),
            r.state() == quiet(zero),
    {
        let mut phase_acc: Vec<S> = Vec::new();
        while phase_acc.len() < N_POS
            invariant
                phase_acc@.len() <= N_POS,
                forall|k: int| 0 <= k < phase_acc@.len() ==> phase_acc@[k] == zero,
            decreases N_POS - phase_acc.len(),
        {
            phase_acc.push(zero);
        }
        assert(phase_acc@ =~= constant(N_POS as nat, zero));
        SpecChannel {
            in_ring: Ring::new(FFT_SIZE, zero),
            out_ring: Ring::new(FFT_SIZE, zero),
            hop_counter: 0,
            phase_acc,
        }
    }

    fn reset(&mut self, zero: S)
        requires
            old(self).in_ring.wf(),
            old(self).out_ring.wf(),
            old(self).state().held.len() == FFT_SIZE,
            old(self).state().pending.len() == FFT_SIZE,
            old(self).state().phases.len() == N_POS,
        ensures
            final(self).in_ring.wf(),
            final(self).out_ring.wf(),
            final(self).state() == quiet(zero),
    {
        self.in_ring.fill(zero);
        self.out_ring.fill(zero);
        self.hop_counter = 0;
        let mut k: usize = 0;
        while k < N_POS
            invariant
                self.in_ring.wf(),
                self.out_ring.wf(),
                self.in_ring@ == constant(FFT_SIZE as nat, zero),
                self.out_ring@ == constant(FFT_SIZE as nat, zero),
                self.hop_counter == 0,
                k <= N_POS,
                self.phase_acc@.len() == N_POS,
                forall|j: int| 0 <= j < k ==> self.phase_acc@[j] == zero,
            decreases N_POS - k,
        {
            self.phase_acc[k] = zero;
            k = k + 1;
        }
        assert(self.phase_acc@ =~= constant(N_POS as nat, zero));
    }

    /// Takes a sample in, counts it, and gives the dry one.
    fn push_input(&mut self, hop: usize, x: S) -> (dry: S)
        requires
            MIN_HOP <= hop <= FFT_SIZE,
            old(self).wf(hop as int),
        ensures
            final(self).wf(hop as int),
            final(self).state() == taken(hop as int, old(self).state(), x),
            dry == dry_of(hop as int, old(self).state(), x),
    {
        self.in_ring.push(x);
        let dry = self.in_ring.recent(FFT_SIZE - hop);
        self.hop_counter = self.hop_counter + 1;
        if self.hop_counter >= hop {
            self.hop_counter = 0;
        }
        dry
    }

    /// Gives the next output sample away.
    fn read_output(&mut self, hop: usize, zero: S) -> (wet: S)
        requires
            old(self).wf(hop as int),
        ensures
            final(self).wf(hop as int),
            final(self).state() == given(zero, old(self).state()),
            wet == old(self).state().pending[0],
    {
        self.out_ring.push(zero)
    }

    /// Runs one hop: analysis, shift, synthesis.
    fn run_hop<C: Copy, M: BinMath<S, C>>(&mut self, m: &M, bench: &Bench<S>, p: &SpecParams<S>)
        requires
            bench.wf(),
            old(self).wf(bench.hop_size as int),
        ensures
            final(self).wf(bench.hop_size as int),
            hopped::<S, C, M>(m, bench.tuning(*p), old(self).state(), final(self).state()),
    {
        let ghost t = bench.tuning(*p);
        let ghost before = self.state();
        let size = m.count(FFT_SIZE);
        let hz = m.quot(bench.sample_rate, size);
        let hop = m.count(bench.hop_size);
        let turn = phase_step(m, hop, bench.sample_rate);
        let one = m.ratio(1, 1);
        let share = m.quot(one, size);
        assert(hop_scales_by(m, t, size, hop, one, hz, turn, share));

        // Windowed analysis frame, oldest sample first.
        let empty = m.bin(bench.zero);
        let mut frame = Frame::filled(empty);
        let mut k: usize = 0;
        while k < FFT_SIZE
            invariant
                bench.wf(),
                self.in_ring.wf(),
                self.in_ring@.len() == FFT_SIZE,
                k <= FFT_SIZE,
                frame@.len() == FFT_SIZE,
                forall|j: int|
                    0 <= j < k ==> windowed(
                        m,
                        self.in_ring@[j],
                        bench.win_a@[j],
                        #[trigger] frame@[j],
                    ),
            decreases FFT_SIZE - k,
        {
            let y = m.prod(self.in_ring.at(k), bench.win_a[k]);
            let c = m.bin(y);
            assert(windowed(m, self.in_ring@[k as int], bench.win_a@[k as int], c));
            frame.set(k, c);
            k = k + 1;
        }
        let ghost frame0 = frame;
        let spectrum = m.forward(frame);

        let half = shift_half(m, p, hz, turn, bench.zero, &spectrum, &mut self.phase_acc);
        let full = mirror(m, &half);
        let ghost full0 = full;
        let time = m.inverse(full);
        let ghost phases = self.phase_acc@;

        // Synthesis window and overlap-add into the pending output.
        let mut k: usize = 0;
        while k < FFT_SIZE
            invariant
                bench.wf(),
                t == bench.tuning(*p),
                self.in_ring.wf(),
                self.out_ring.wf(),
                self.in_ring@ == before.held,
                self.hop_counter == before.since,
                self.phase_acc@ == phases,
                self.out_ring@.len() == FFT_SIZE,
                before.pending.len() == FFT_SIZE,
                k <= FFT_SIZE,
                forall|j: int| k <= j < FFT_SIZE ==> self.out_ring@[j] == before.pending[j],
                forall|j: int|
                    0 <= j < k ==> overlapped(
                        m,
                        before.pending[j],
                        time@[j],
                        share,
                        t.win_s[j],
                        t.cola,
                        #[trigger] self.out_ring@[j],
                    ),
            decreases FFT_SIZE - k,
        {
            let c = time.get(k);
            let re = m.bin_re(c);
            let normal = m.prod(re, share);
            let shaped = m.prod(normal, bench.win_s[k]);
            let scaled = m.prod(shaped, bench.cola_scale);
            let r = m.sum(self.out_ring.at(k), scaled);
            assert(overlapped_by(
                m,
                before.pending[k as int],
                time@[k as int],
                share,
                t.win_s[k as int],
                t.cola,
                re,
                normal,
                shaped,
                scaled,
                r,
            ));
            self.out_ring.put(k, r);
            k = k + 1;
        }
        proof {
            reveal(hopped);
            assert(hopped_by(
                m,
                t,
                before,
                hz,
                turn,
                share,
                frame0,
                spectrum,
                half@,
                full0,
                time,
                self.state(),
            ));
        }
    }

    /// Takes one sample in and gives one out.
    fn step<C: Copy, M: BinMath<S, C>>(
        &mut self,
        m: &M,
        bench: &Bench<S>,
        p: &SpecParams<S>,
        x: S,
    ) -> (out: S)
        requires
            bench.wf(),
            old(self).wf(bench.hop_size as int),
        ensures
            final(self).wf(bench.hop_size as int),
            chan_step::<S, C, M>(
                m,
                bench.tuning(*p),
                old(self).state(),
                x,
                final(self).state(),
                out,
            ),
    {
        let dry = self.push_input(bench.hop_size, x);
        if self.hop_counter == 0 {
            self.run_hop(m, bench, p);
        }
        let ghost mid = self.state();
        let wet = self.read_output(bench.hop_size, bench.zero);
        let out = blend(m, p.mix, dry, wet);
        assert(chan_step_by::<S, C, M>(
            m,
            bench.tuning(*p),
            old(self).state(),
            x,
            mid,
            self.state(),
            out,
        ));
        out
    }
}

/// What the channels share.
struct Bench<S> {
    sample_rate: S,
    hop_size: usize,
    win_a: Vec<S>,
    win_s: Vec<S>,
    cola_scale: S,
    zero: S,
}

impl<S: Copy> Bench<S> {
    spec fn wf(&self) -> bool {
        &&& MIN_HOP <= self.hop_size <= FFT_SIZE
        &&& self.win_a@.len() == FFT_SIZE
        &&& self.win_s@.len() == FFT_SIZE
    }

    spec fn tuning(&self, params: SpecParams<S>) -> ChanTuning<S> {
        ChanTuning {
            params,
            rate: self.sample_rate,
            hop: self.hop_size as int,
            win_a: self.win_a@,
            win_s: self.win_s@,
            cola: self.cola_scale,
            zero: self.zero,
        }
    }
}

/// Two copies of the Hann window over a frame.
fn hann_pair<S: Copy, M: SampleMath<S>>(m: &M) -> (r: (Vec<S>, Vec<S>))
    ensures
        r.0@.len() == FFT_SIZE,
        r.1@ == r.0@,
        forall|k: int|
            0 <= k < FFT_SIZE ==> hann_at(m, k as usize, FFT_SIZE, #[trigger] r.0@[k]),
{
    let mut win_a: Vec<S> = Vec::new();
    let mut win_s: Vec<S> = Vec::new();
    let mut k: usize = 0;
    while k < FFT_SIZE
        invariant
            k <= FFT_SIZE,
            win_a@.len() == k,
            win_s@ == win_a@,
            forall|j: int|
                0 <= j < k ==> hann_at(m, j as usize, FFT_SIZE, #[trigger] win_a@[j]),
        decreases FFT_SIZE - k,
    {
        let w = hann(m, k, FFT_SIZE);
        win_a.push(w);
        win_s.push(w);
        k = k + 1;
    }
    (win_a, win_s)
}

/// Channels that have heard nothing.
fn quiet_channels<S: Copy>(channels: usize, zero: S) -> (chans: Vec<SpecChannel<S>>)
    ensures
        chans@.len() == channels,
        forall|i: int|
            0 <= i < channels ==> (#[trigger] chans@[i]).state() == quiet(zero)
                && chans@[i].in_ring.wf() && chans@[i].out_ring.wf(),
{
    let mut chans: Vec<SpecChannel<S>> = Vec::new();
    while chans.len() < channels
        invariant
            chans@.len() <= channels,
            forall|i: int|
                0 <= i < chans@.len() ==> (#[trigger] chans@[i]).state() == quiet(zero)
                    && chans@[i].in_ring.wf() && chans@[i].out_ring.wf(),
        decreases channels - chans.len(),
    {
        chans.push(SpecChannel::new(zero));
    }
    chans
}

/// FFT-based frequency shifter with frequency-dependent shift profiles.
///
/// Streaming STFT (analysis Hann x synthesis Hann) with overlap-add
/// reconstruction. For each output bin `k`, the input is interpolated from
/// where it comes from, if the frequency there is one that the profile moves; what
/// the profile does not move stays in its bin. Per-bin phase is compensated across
/// hops so the shift sounds smooth even when fractional or frequency-dependent.
///
/// Hermitian symmetry is enforced on the negative-frequency half so the
/// inverse transform produces a real-valued time-domain signal.
pub struct SpectralShifter<S> {
    bench: Bench<S>,
    chans: Vec<SpecChannel<S>>,
}

impl<S: Copy> SpectralShifter<S> {
    /// The sample rate.
    pub closed spec fn rate(&self) -> S {
        self.bench.sample_rate
    }

    /// The hop.
    pub closed spec fn hop(&self) -> int {
        self.bench.hop_size as int
    }

    /// The analysis window.
    pub closed spec fn win_a(&self) -> Seq<S> {
        self.bench.win_a@
    }

    /// The synthesis window.
    pub closed spec fn win_s(&self) -> Seq<S> {
        self.bench.win_s@
    }

    /// The gain that undoes the overlap.
    pub closed spec fn cola(&self) -> S {
        self.bench.cola_scale
    }

    /// The value that stands for silence.
    pub closed spec fn zero(&self) -> S {
        self.bench.zero
    }

    /// What each channel remembers.
    pub closed spec fn chans(&self) -> Seq<ChanState<S>> {
        Seq::new(self.chans@.len(), |i: int| self.chans@[i].state())
    }

    /// The hop and the windows have the lengths they need, and so has each
    /// channel.
    pub closed spec fn wf(&self) -> bool {
        &&& self.bench.wf()
        &&& forall|i: int|
            0 <= i < self.chans@.len() ==> (#[trigger] self.chans@[i]).wf(
                self.bench.hop_size as int,
            )
    }

    /// What the channels work with under the given settings.
    pub open spec fn tuning(&self, params: SpecParams<S>) -> ChanTuning<S> {
        ChanTuning {
            params,
            rate: self.rate(),
            hop: self.hop(),
            win_a: self.win_a(),
            win_s: self.win_s(),
            cola: self.cola(),
            zero: self.zero(),
        }
    }

    /// Nothing has been heard.
    pub open spec fn fresh(&self) -> bool {
        forall|i: int| 0 <= i < self.chans().len() ==> #[trigger] self.chans()[i] == quiet(
            self.zero(),
        )
    }

    /// The windows, the silence and the number of channels are the same.
    pub open spec fn same_windows(&self, other: &Self) -> bool {
        &&& self.win_a() == other.win_a()
        &&& self.win_s() == other.win_s()
        &&& self.zero() == other.zero()
        &&& self.chans().len() == other.chans().len()
    }

    /// Everything but what the channels remember is the same.
    pub open spec fn same_setup(&self, other: &Self) -> bool {
        &&& self.same_windows(other)
        &&& self.rate() == other.rate()
        &&& self.hop() == other.hop()
        &&& self.cola() == other.cola()
    }

    /// What is known of every shifter.
    pub proof fn lemma_shape(&self)
        requires
            self.wf(),
        ensures
            MIN_HOP <= self.hop() <= FFT_SIZE,
            self.win_a().len() == FFT_SIZE,
            self.win_s().len() == FFT_SIZE,
            forall|i: int|
                0 <= i < self.chans().len() ==> chan_ok(self.hop(), #[trigger] self.chans()[i]),
    {
        assert forall|i: int| 0 <= i < self.chans().len() implies chan_ok(
            self.hop(),
            #[trigger] self.chans()[i],
        ) by {
            assert(self.chans@[i].wf(self.bench.hop_size as int));
        }
    }

    /// A shifter for the given number of channels that has heard nothing.
    pub fn new<M: SampleMath<S>>(m: &M, sample_rate: S, channels: usize) -> (r: Self)
        ensures
            r.wf(),
            spec_made(m, sample_rate, channels as nat, r),
    {
        let (win_a, win_s) = hann_pair(m);
        let cola_scale = compute_cola(m, &win_a, &win_s, DEFAULT_HOP);
        let zero = m.ratio(0, 1);
        let chans = quiet_channels(channels, zero);
        let bench = Bench { sample_rate, hop_size: DEFAULT_HOP, win_a, win_s, cola_scale, zero };
        SpectralShifter { bench, chans }
    }

    /// The hop.
    pub fn hop_size(&self) -> (hop: usize)
        ensures
            hop == self.hop(),
    {
        self.bench.hop_size
    }

    /// Forgets what was heard.
    pub fn reset(&mut self)
        requires
            old(self).wf(),
        ensures
            final(self).wf(),
            final(self).fresh(),
            final(self).same_setup(old(self)),
    {
        let n = self.chans.len();
        let mut i: usize = 0;
        while i < n
            invariant
                self.wf(),
                n == self.chans@.len(),
                n == old(self).chans@.len(),
                self.bench == old(self).bench,
                i <= n,
                forall|j: int| 0 <= j < i ==> (#[trigger] self.chans@[j]).state() == quiet(
                    self.bench.zero,
                ),
            decreases n - i,
        {
            assert(self.chans@[i as int].wf(self.bench.hop_size as int));
            self.chans[i].reset(self.bench.zero);
            i = i + 1;
        }
    }

    /// Takes on another hop, held to the range from [`MIN_HOP`] to a whole
    /// frame. A hop change invalidates the overlap-add alignment, the hop count
    /// and the phases, so it forgets what was heard.
    pub fn set_hop_size<M: SampleMath<S>>(&mut self, m: &M, hop: usize)
        requires
            old(self).wf(),
        ensures
            final(self).wf(),
            hop_applied(m, *old(self), hop as int, *final(self)),
    {
        let hop: usize = if hop < MIN_HOP {
            MIN_HOP
        } else if hop > FFT_SIZE {
            FFT_SIZE
        } else {
            hop
        };
        if hop == self.bench.hop_size {
            return;
        }
        let cola = compute_cola(m, &self.bench.win_a, &self.bench.win_s, hop);
        self.reset();
        let ghost cleared = *self;
        self.bench.cola_scale = cola;
        self.bench.hop_size = hop;
        proof {
            assert(self.chans() =~= cleared.chans());
            assert forall|i: int| 0 <= i < self.chans@.len() implies (
            #[trigger] self.chans@[i]).wf(hop as int) by {
                assert(cleared.chans@[i].wf(cleared.bench.hop_size as int));
                assert(cleared.chans()[i] == quiet(self.bench.zero));
            }
        }
    }

    /// Takes on another sample rate, and forgets what was heard.
    pub fn retune(&mut self, sr: S)
        requires
            old(self).wf(),
        ensures
            final(self).wf(),
            final(self).fresh(),
            final(self).same_windows(old(self)),
            final(self).rate() == sr,
            final(self).hop() == old(self).hop(),
            final(self).cola() == old(self).cola(),
    {
        self.bench.sample_rate = sr;
        self.reset();
    }

    /// Takes on another sample rate and forgets what was heard, if the two
    /// rates are more than half a hertz apart.
    pub fn set_sample_rate<M: SampleMath<S>>(&mut self, m: &M, sr: S)
        requires
            old(self).wf(),
        ensures
            final(self).wf(),
            exists|changed: bool| #[trigger]
                rates_apart(m, sr, old(self).rate(), changed) && if changed {
                    &&& final(self).fresh()
                    &&& final(self).same_windows(old(self))
                    &&& final(self).rate() == sr
                    &&& final(self).hop() == old(self).hop()
                    &&& final(self).cola() == old(self).cola()
                } else {
                    *final(self) == *old(self)
                },
            rate_follows(m, sr, old(self).rate(), final(self).rate()),
    {
        let changed = rate_changed(m, sr, self.bench.sample_rate);
        assert(rates_apart(m, sr, old(self).rate(), changed));
        if changed {
            self.retune(sr);
        }
        proof {
            lemma_rate_follows(m, sr, old(self).rate(), self.rate(), changed);
        }
    }

    /// Shifts a block, after taking on the hop of the settings. What the output
    /// buffers hold past the block stays.
    pub fn process_stereo<C: Copy, M: BinMath<S, C>>(
        &mut self,
        m: &M,
        in_l: &[S],
        in_r: &[S],
        out_l: &mut [S],
        out_r: &mut [S],
        p: &SpecParams<S>,
    )
        requires
            old(self).wf(),
            0 < in_l@.len() ==> 2 <= old(self).chans().len(),
            in_l@.len() <= in_r@.len(),
            in_l@.len() <= old(out_l)@.len(),
            in_l@.len() <= old(out_r)@.len(),
        ensures
            final(self).wf(),
            final(out_l)@.len() == old(out_l)@.len(),
            final(out_r)@.len() == old(out_r)@.len(),
            spec_block::<S, C, M>(
                m,
                *p,
                *old(self),
                in_l@,
                in_r@.take(in_l@.len() as int),
                final(out_l)@.take(in_l@.len() as int),
                final(out_r)@.take(in_l@.len() as int),
                *final(self),
            ),
            final(out_l)@.skip(in_l@.len() as int) == old(out_l)@.skip(in_l@.len() as int),
            final(out_r)@.skip(in_l@.len() as int) == old(out_r)@.skip(in_l@.len() as int),
    {
        // Any pending hop change comes before the first sample.
        self.set_hop_size(m, p.hop_size);
        let ghost start = *self;
        let ghost go = chan_stepper::<S, C, M>(m, start.tuning(*p));
        let n = in_l.len();
        let mut i: usize = 0;
        proof {
            lemma_streamed_none(go, start.chans()[0]);
            lemma_streamed_none(go, start.chans()[1]);
            assert(in_l@.take(0) =~= Seq::<S>::empty());
            assert(in_r@.take(0) =~= Seq::<S>::empty());
            assert(out_l@.take(0) =~= Seq::<S>::empty());
            assert(out_r@.take(0) =~= Seq::<S>::empty());
        }
        while i < n
            invariant
                self.wf(),
                self.bench == start.bench,
                self.chans@.len() == start.chans@.len(),
                go == chan_stepper::<S, C, M>(m, start.tuning(*p)),
                i <= n,
                n == in_l@.len(),
                0 < n ==> 2 <= self.chans@.len(),
                n <= in_r@.len(),
                n <= out_l@.len(),
                n <= out_r@.len(),
                out_l@.len() == old(out_l)@.len(),
                out_r@.len() == old(out_r)@.len(),
                out_l@.skip(n as int) == old(out_l)@.skip(n as int),
                out_r@.skip(n as int) == old(out_r)@.skip(n as int),
                forall|j: int|
                    2 <= j < self.chans@.len() ==> #[trigger] self.chans@[j] == start.chans@[j],
                streamed(
                    go,
                    start.chans()[0],
                    in_l@.take(i as int),
                    out_l@.take(i as int),
                    self.chans()[0],
                ),
                streamed(
                    go,
                    start.chans()[1],
                    in_r@.take(i as int),
                    out_r@.take(i as int),
                    self.chans()[1],
                ),
            decreases n - i,
        {
            let ghost was = *self;
            let ghost before_l = out_l@;
            let ghost before_r = out_r@;
            assert(self.bench.tuning(*p) == start.tuning(*p));
            assert(self.chans@[0].wf(self.bench.hop_size as int));
            let y_l = self.chans[0].step(m, &self.bench, p, in_l[i]);
            out_l[i] = y_l;
            assert(self.chans@[1] == was.chans@[1]);
            assert(self.chans@[1].wf(self.bench.hop_size as int));
            let y_r = self.chans[1].step(m, &self.bench, p, in_r[i]);
            out_r[i] = y_r;
            proof {
                let k = i as int;
                assert(go(was.chans()[0], in_l@[k], self.chans()[0], y_l));
                assert(go(was.chans()[1], in_r@[k], self.chans()[1], y_r));
                lemma_streamed_push(
                    go,
                    start.chans()[0],
                    in_l@.take(k),
                    before_l.take(k),
                    was.chans()[0],
                    in_l@[k],
                    y_l,
                    self.chans()[0],
                );
                lemma_streamed_push(
                    go,
                    start.chans()[1],
                    in_r@.take(k),
                    before_r.take(k),
                    was.chans()[1],
                    in_r@[k],
                    y_r,
                    self.chans()[1],
                );
                assert(in_l@.take(k + 1) =~= in_l@.take(k).push(in_l@[k]));
                assert(in_r@.take(k + 1) =~= in_r@.take(k).push(in_r@[k]));
                assert(out_l@.take(k + 1) =~= before_l.take(k).push(y_l));
                assert(out_r@.take(k + 1) =~= before_r.take(k).push(y_r));
                assert(out_l@.skip(n as int) =~= before_l.skip(n as int));
                assert(out_r@.skip(n as int) =~= before_r.skip(n as int));
            }
            i = i + 1;
        }
        assert(in_l@.take(n as int) =~= in_l@);
        assert(spec_block_by::<S, C, M>(
            m,
            *p,
            start,
            in_l@,
            in_r@.take(n as int),
            out_l@.take(n as int),
            out_r@.take(n as int),
            *self,
        ));
    }
}

/// `r` is a new shifter for the given number of channels: it works at the given
/// rate, has heard nothing, and has Hann windows and the default hop.
pub open spec fn spec_made<S: Copy, M: SampleMath<S>>(
    m: &M,
    rate: S,
    channels: nat,
    r: SpectralShifter<S>,
) -> bool {
    &&& r.fresh()
    &&& r.rate() == rate
    &&& r.hop() == DEFAULT_HOP
    &&& r.chans().len() == channels
    &&& r.win_a().len() == FFT_SIZE
    &&& forall|k: int|
        0 <= k < FFT_SIZE ==> hann_at(m, k as usize, FFT_SIZE, #[trigger] r.win_a()[k])
    &&& r.win_s() == r.win_a()
    &&& cola_of(m, r.win_a(), r.win_s(), DEFAULT_HOP as nat, r.cola())
    &&& call_ensures(M::ratio, (m, 0i32, 1u32), r.zero())
}

/// `post` is `pre` with another hop: `hop` as far as it is allowed. Nothing
/// changes where that is the hop already.
pub open spec fn hop_applied<S: Copy, M: SampleMath<S>>(
    m: &M,
    pre: SpectralShifter<S>,
    hop: int,
    post: SpectralShifter<S>,
) -> bool {
    if allowed_hop(hop) == pre.hop() {
        post == pre
    } else {
        &&& post.fresh()
        &&& post.same_windows(&pre)
        &&& post.rate() == pre.rate()
        &&& post.hop() == allowed_hop(hop)
        &&& cola_of(m, pre.win_a(), pre.win_s(), allowed_hop(hop) as nat, post.cola())
    }
}

/// The shifter takes the block `in_l`, `in_r` in state `pre` and gives `out_l`,
/// `out_r` in state `post`: it takes on the hop of the settings, then the first
/// two channels stream on their own.
pub open spec fn spec_block<S: Copy, C, M: BinMath<S, C>>(
    m: &M,
    p: SpecParams<S>,
    pre: SpectralShifter<S>,
    in_l: Seq<S>,
    in_r: Seq<S>,
    out_l: Seq<S>,
    out_r: Seq<S>,
    post: SpectralShifter<S>,
) -> bool {
    exists|start: SpectralShifter<S>|
        hop_applied(m, pre, p.hop_size as int, start) && #[trigger] spec_block_by::<S, C, M>(
            m,
            p,
            start,
            in_l,
            in_r,
            out_l,
            out_r,
            post,
        )
}

/// [`spec_block`], once the hop is taken on.
pub open spec fn spec_block_by<S: Copy, C, M: BinMath<S, C>>(
    m: &M,
    p: SpecParams<S>,
    start: SpectralShifter<S>,
    in_l: Seq<S>,
    in_r: Seq<S>,
    out_l: Seq<S>,
    out_r: Seq<S>,
    post: SpectralShifter<S>,
) -> bool {
    let go = chan_stepper::<S, C, M>(m, start.tuning(p));
    &&& post.same_setup(&start)
    &&& streamed(go, start.chans()[0], in_l, out_l, post.chans()[0])
    &&& streamed(go, start.chans()[1], in_r, out_r, post.chans()[1])
    &&& forall|i: int| 2 <= i < start.chans().len() ==> #[trigger] post.chans()[i]
        == start.chans()[i]
}

} // verus!
