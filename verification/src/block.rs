//! One block of audio on its way through the engines, and its level.

use vstd::prelude::*;

use crate::dsp::engine::{engine_out, rate_taken_on, Engine, Params};
use crate::math::{BinMath, SampleMath};
use crate::value_laws::rate_follows;

verus! {

/// `held`, cut or filled up with `zero` to `n` samples.
pub open spec fn fitted<S>(held: Seq<S>, n: nat, zero: S) -> Seq<S> {
    Seq::new(
        n,
        |i: int|
            if i < held.len() {
                held[i]
            } else {
                zero
            },
    )
}

/// Cuts `held`, or fills it up with `zero`, to `n` samples.
pub fn fit<S: Copy>(held: &mut Vec<S>, n: usize, zero: S)
    ensures
        final(held)@ == fitted(old(held)@, n as nat, zero),
{
    if held.len() > n {
        held.truncate(n);
    }
    while held.len() < n
        invariant
            held@.len() <= n,
            held@.len() == n || old(held)@.len() <= held@.len(),
            forall|i: int|
                0 <= i < held@.len() ==> held@[i] == fitted(old(held)@, n as nat, zero)[i],
        decreases n - held.len(),
    {
        held.push(zero);
    }
    assert(held@ =~= fitted(old(held)@, n as nat, zero));
}

/// `next` is the highest level once the sample `x` is seen, after `level`.
pub open spec fn level_step<S, M: SampleMath<S>>(m: &M, level: S, x: S, next: S) -> bool {
    exists|size: S, above: bool| #[trigger] level_step_by(m, level, x, size, above, next)
}

/// [`level_step`], with the size of the sample and whether it is above.
pub open spec fn level_step_by<S, M: SampleMath<S>>(
    m: &M,
    level: S,
    x: S,
    size: S,
    above: bool,
    next: S,
) -> bool {
    &&& call_ensures(M::magnitude, (m, x), size)
    &&& call_ensures(M::less, (m, level, size), above)
    &&& next == if above {
        size
    } else {
        level
    }
}

/// `r` is the highest level of all of `xs`, starting from `start`.
pub open spec fn highest<S, M: SampleMath<S>>(m: &M, xs: Seq<S>, start: S, r: S) -> bool {
    exists|levels: Seq<S>| #[trigger] highest_by(m, xs, start, levels, r)
}

/// [`highest`], with the level after each sample.
pub open spec fn highest_by<S, M: SampleMath<S>>(
    m: &M,
    xs: Seq<S>,
    start: S,
    levels: Seq<S>,
    r: S,
) -> bool {
    &&& levels.len() == xs.len() + 1
    &&& levels[0] == start
    &&& levels.last() == r
    &&& forall|k: int|
        0 <= k < xs.len() ==> level_step(m, #[trigger] levels[k], xs[k], levels[k + 1])
}

/// The highest level of all of `xs`, starting from `start`.
pub fn highest_level<S: Copy, M: SampleMath<S>>(m: &M, xs: &[S], start: S) -> (r: S)
    ensures
        highest(m, xs@, start, r),
{
    let n = xs.len();
    let mut level = start;
    let ghost mut levels = seq![start];
    let mut k: usize = 0;
    while k < n
        invariant
            n == xs@.len(),
            k <= n,
            highest_by(m, xs@.take(k as int), start, levels, level),
        decreases n - k,
    {
        let size = m.magnitude(xs[k]);
        let above = m.less(level, size);
        let next = if above {
            size
        } else {
            level
        };
        proof {
            assert(level_step_by(m, level, xs@[k as int], size, above, next));
            let longer = levels.push(next);
            let xs1 = xs@.take(k + 1);
            assert forall|j: int| 0 <= j < xs1.len() implies level_step(
                m,
                #[trigger] longer[j],
                xs1[j],
                longer[j + 1],
            ) by {
                if j < k {
                    assert(longer[j] == levels[j]);
                    assert(xs@.take(k as int)[j] == xs1[j]);
                }
            }
            levels = longer;
        }
        level = next;
        k = k + 1;
    }
    assert(xs@.take(n as int) =~= xs@);
    assert(highest_by(m, xs@, start, levels, level));
    level
}

/// `r` is where the meter stands after a block of the given level: it rises at
/// once, and else falls by 8 percent.
pub open spec fn meter_moved<S, M: SampleMath<S>>(m: &M, meter: S, level: S, r: S) -> bool {
    exists|rises: bool, decay: S| #[trigger] meter_moved_by(m, meter, level, rises, decay, r)
}

/// [`meter_moved`], with the comparison and the rate of decay.
pub open spec fn meter_moved_by<S, M: SampleMath<S>>(
    m: &M,
    meter: S,
    level: S,
    rises: bool,
    decay: S,
    r: S,
) -> bool {
    &&& call_ensures(M::less, (m, meter, level), rises)
    &&& call_ensures(M::ratio, (m, 92i32, 100u32), decay)
    &&& if rises {
        r == level
    } else {
        call_ensures(M::prod, (m, meter, decay), r)
    }
}

/// Moves the meter after a block of the given level.
pub fn move_meter<S: Copy, M: SampleMath<S>>(m: &M, meter: S, level: S) -> (r: S)
    ensures
        meter_moved(m, meter, level, r),
{
    let rises = m.less(meter, level);
    let decay = m.ratio(92, 100);
    let r = if rises {
        level
    } else {
        m.prod(meter, decay)
    };
    assert(meter_moved_by(m, meter, level, rises, decay, r));
    r
}

/// The buffers that a block goes through. They are kept from block to block.
pub struct Block<S> {
    pub in_l: Vec<S>,
    pub in_r: Vec<S>,
    pub out_l: Vec<S>,
    pub out_r: Vec<S>,
}

impl<S: Copy> Block<S> {
    /// All buffers have the same length.
    pub open spec fn even(&self) -> bool {
        &&& self.in_r@.len() == self.in_l@.len()
        &&& self.out_l@.len() == self.in_l@.len()
        &&& self.out_r@.len() == self.in_l@.len()
    }

    /// Empty buffers, with room for the blocks to come.
    pub fn new() -> (b: Self)
        ensures
            b.even(),
            b.in_l@.len() == 0,
    {
        Block {
            in_l: Vec::with_capacity(8192),
            in_r: Vec::with_capacity(8192),
            out_l: Vec::with_capacity(8192),
            out_r: Vec::with_capacity(8192),
        }
    }

    /// Makes room for a block of `n` samples.
    pub fn resize(&mut self, n: usize, zero: S)
        ensures
            final(self).even(),
            final(self).in_l@ == fitted(old(self).in_l@, n as nat, zero),
            final(self).in_r@ == fitted(old(self).in_r@, n as nat, zero),
            final(self).out_l@ == fitted(old(self).out_l@, n as nat, zero),
            final(self).out_r@ == fitted(old(self).out_r@, n as nat, zero),
    {
        fit(&mut self.in_l, n, zero);
        fit(&mut self.in_r, n, zero);
        fit(&mut self.out_l, n, zero);
        fit(&mut self.out_r, n, zero);
    }

    /// Which of the two input buffers are to be filled from an input of the
    /// given number of channels.
    pub fn inputs_to_fill(n_in_chans: u32) -> (r: (bool, bool))
        ensures
            r.0 == (n_in_chans >= 1),
            r.1 == (n_in_chans >= 2),
    {
        (n_in_chans >= 1, n_in_chans >= 2)
    }

    /// Without a second input channel, the first one is heard on both sides.
    pub fn spread_mono(&mut self, n_in_chans: u32)
        requires
            old(self).even(),
        ensures
            final(self).even(),
            final(self).in_l@ == old(self).in_l@,
            final(self).in_r@ == if n_in_chans >= 2 {
                old(self).in_r@
            } else {
                old(self).in_l@
            },
            final(self).out_l@ == old(self).out_l@,
            final(self).out_r@ == old(self).out_r@,
    {
        if n_in_chans < 2 {
            let n = self.in_l.len();
            let mut i: usize = 0;
            while i < n
                invariant
                    n == self.in_l@.len(),
                    n == self.in_r@.len(),
                    i <= n,
                    self.in_l@ == old(self).in_l@,
                    self.out_l@ == old(self).out_l@,
                    self.out_r@ == old(self).out_r@,
                    forall|j: int| 0 <= j < i ==> self.in_r@[j] == self.in_l@[j],
                decreases n - i,
            {
                let x = self.in_l[i];
                self.in_r[i] = x;
                i = i + 1;
            }
            assert(self.in_r@ =~= self.in_l@);
        }
    }

    /// Puts the block through the engines, at the given sample rate.
    pub fn process<C: Copy, M: BinMath<S, C>>(
        &mut self,
        m: &M,
        engine: &mut Engine<S>,
        rate: S,
        params: &Params<S>,
    )
        requires
            old(self).even(),
            old(engine).wf(),
        ensures
            final(self).even(),
            final(engine).wf(),
            final(self).in_l@ == old(self).in_l@,
            final(self).in_r@ == old(self).in_r@,
            block_processed::<S, C, M>(
                m,
                *params,
                rate,
                *old(engine),
                *old(self),
                *final(self),
                *final(engine),
            ),
            rate_follows(m, rate, old(engine).rate(), final(engine).rate()),
    {
        engine.set_sample_rate(m, rate);
        let ghost tuned = *engine;
        engine.process_stereo(
            m,
            self.in_l.as_slice(),
            self.in_r.as_slice(),
            self.out_l.as_mut_slice(),
            self.out_r.as_mut_slice(),
            params,
        );
        assert(self.in_r@.take(self.in_l@.len() as int) =~= self.in_r@);
        assert(engine_out::<S, C, M>(
            m,
            *params,
            tuned,
            old(self).in_l@,
            old(self).in_r@,
            old(self).out_l@,
            old(self).out_r@,
            self.out_l@,
            self.out_r@,
            *engine,
        ));
    }

    /// The highest level of the output.
    pub fn level<M: SampleMath<S>>(&self, m: &M) -> (r: S)
        ensures
            level_of(m, self.out_l@, self.out_r@, r),
    {
        let zero = m.ratio(0, 1);
        let left = highest_level(m, self.out_l.as_slice(), zero);
        highest_level(m, self.out_r.as_slice(), left)
    }
}

/// `r` is the highest level of both sides, starting from nothing.
pub open spec fn level_of<S, M: SampleMath<S>>(m: &M, left: Seq<S>, right: Seq<S>, r: S) -> bool {
    exists|zero: S, level: S|
        call_ensures(M::ratio, (m, 0i32, 1u32), zero) && #[trigger] highest(m, left, zero, level)
            && highest(m, right, level, r)
}

/// The engines take on the sample rate and then process the block.
pub open spec fn block_processed<S: Copy, C, M: BinMath<S, C>>(
    m: &M,
    params: Params<S>,
    rate: S,
    pre: Engine<S>,
    before: Block<S>,
    after: Block<S>,
    post: Engine<S>,
) -> bool {
    exists|tuned: Engine<S>|
        rate_taken_on(m, pre, rate, tuned) && #[trigger] engine_out::<S, C, M>(
            m,
            params,
            tuned,
            before.in_l@,
            before.in_r@,
            before.out_l@,
            before.out_r@,
            after.out_l@,
            after.out_r@,
            post,
        )
}

} // verus!
