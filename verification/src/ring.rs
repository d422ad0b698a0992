//! A fixed-length delay line.

use vstd::prelude::*;

verus! {

/// The position `k` places after `pos` in a circle of `n` places.
pub open spec fn slot(pos: int, k: int, n: int) -> int {
    if pos + k < n {
        pos + k
    } else {
        pos + k - n
    }
}

proof fn lemma_slot(a: int, n: int)
    requires
        0 <= a < 2 * n,
    ensures
        a % n == slot(0, a, n),
{
    if a < n {
        vstd::arithmetic::div_mod::lemma_small_mod(a as nat, n as nat);
    } else {
        vstd::arithmetic::div_mod::lemma_mod_add_multiples_vanish(a - n, n);
        vstd::arithmetic::div_mod::lemma_small_mod((a - n) as nat, n as nat);
        assert(n + (a - n) == a);
    }
}

/// The contents after `x` has pushed out the oldest value.
pub open spec fn pushed<S>(held: Seq<S>, x: S) -> Seq<S> {
    held.drop_first().push(x)
}

/// The contents after all of `xs` have been pushed, the first one first.
pub open spec fn fed<S>(held: Seq<S>, xs: Seq<S>) -> Seq<S>
    decreases xs.len(),
{
    if xs.len() == 0 {
        held
    } else {
        pushed(fed(held, xs.drop_last()), xs.last())
    }
}

/// The value pushed `back` pushes before the newest one.
pub open spec fn delayed<S>(held: Seq<S>, back: int) -> S {
    held[held.len() - 1 - back]
}

/// `n` times the same value.
pub open spec fn constant<S>(n: nat, x: S) -> Seq<S> {
    Seq::new(n, |k: int| x)
}

/// A circular buffer that always holds the same number of values. Its view is
/// what it holds, oldest first.
pub struct Ring<S> {
    buf: Vec<S>,
    pos: usize,
}

impl<S> View for Ring<S> {
    type V = Seq<S>;

    closed spec fn view(&self) -> Seq<S> {
        Seq::new(
            self.buf@.len(),
            |k: int| self.buf@[slot(self.pos as int, k, self.buf@.len() as int)],
        )
    }
}

impl<S: Copy> Ring<S> {
    /// The ring holds something, and positions can be added without overflow.
    pub closed spec fn wf(&self) -> bool {
        &&& 0 < self.buf@.len()
        &&& 2 * self.buf@.len() <= usize::MAX
        &&& self.pos < self.buf@.len()
    }

    /// A ring of `n` times `fill`.
    pub fn new(n: usize, fill: S) -> (r: Self)
        requires
            0 < n,
            2 * n <= usize::MAX,
        ensures
            r.wf(),
            r@ == constant(n as nat, fill),
    {
        let mut buf: Vec<S> = Vec::new();
        while buf.len() < n
            invariant
                buf@.len() <= n,
                forall|k: int| 0 <= k < buf@.len() ==> buf@[k] == fill,
            decreases n - buf.len(),
        {
            buf.push(fill);
        }
        Ring { buf, pos: 0 }
    }

    /// How many values the ring holds.
    pub fn len(&self) -> (n: usize)
        requires
            self.wf(),
        ensures
            n == self@.len(),
            0 < n,
            2 * n <= usize::MAX,
    {
        self.buf.len()
    }

    /// Pushes out the oldest value, and returns it.
    pub fn push(&mut self, x: S) -> (oldest: S)
        requires
            old(self).wf(),
        ensures
            final(self).wf(),
            final(self)@ == pushed(old(self)@, x),
            oldest == old(self)@[0],
    {
        let n = self.buf.len();
        let pos = self.pos;
        let oldest = self.buf[pos];
        self.buf[pos] = x;
        proof {
            lemma_slot(pos + 1, n as int);
        }
        self.pos = (pos + 1) % n;
        assert(self@ =~= pushed(old(self)@, x));
        oldest
    }

    /// The value pushed `back` pushes before the newest one.
    pub fn recent(&self, back: usize) -> (x: S)
        requires
            self.wf(),
            back < self@.len(),
        ensures
            x == delayed(self@, back as int),
    {
        let n = self.buf.len();
        proof {
            lemma_slot(self.pos + (n - 1 - back), n as int);
        }
        self.buf[(self.pos + (n - 1 - back)) % n]
    }

    /// The `k`-th value, counted from the oldest.
    pub fn at(&self, k: usize) -> (x: S)
        requires
            self.wf(),
            k < self@.len(),
        ensures
            x == self@[k as int],
    {
        let n = self.buf.len();
        proof {
            lemma_slot(self.pos + k, n as int);
        }
        self.buf[(self.pos + k) % n]
    }

    /// Replaces the `k`-th value, counted from the oldest.
    pub fn put(&mut self, k: usize, x: S)
        requires
            old(self).wf(),
            k < old(self)@.len(),
        ensures
            final(self).wf(),
            final(self)@ == old(self)@.update(k as int, x),
    {
        let n = self.buf.len();
        proof {
            lemma_slot(self.pos + k, n as int);
        }
        let i = (self.pos + k) % n;
        self.buf[i] = x;
        assert(self@ =~= old(self)@.update(k as int, x));
    }

    /// Overwrites every value with `x`.
    pub fn fill(&mut self, x: S)
        requires
            old(self).wf(),
        ensures
            final(self).wf(),
            final(self)@ == constant(old(self)@.len(), x),
    {
        let n = self.buf.len();
        let mut k: usize = 0;
        while k < n
            invariant
                n == self.buf@.len(),
                n == old(self)@.len(),
                0 < n,
                2 * n <= usize::MAX,
                k <= n,
                forall|j: int| 0 <= j < k ==> self.buf@[j] == x,
            decreases n - k,
        {
            self.buf[k] = x;
            k = k + 1;
        }
        self.pos = 0;
        assert(self@ =~= constant(old(self)@.len(), x));
    }
}

/// Feeding is one push after another: what a ring of `n` values holds is the
/// last `n` values of its first contents followed by all that was fed.
pub proof fn law_fed_keeps_the_newest<S>(held: Seq<S>, xs: Seq<S>)
    requires
        0 < held.len(),
    ensures
        fed(held, xs) == (held + xs).skip(xs.len() as int),
        fed(held, xs).len() == held.len(),
    decreases xs.len(),
{
    if xs.len() == 0 {
        assert((held + xs).skip(0) =~= held);
    } else {
        law_fed_keeps_the_newest(held, xs.drop_last());
        assert((held + xs).skip(xs.len() as int) =~= pushed(
            (held + xs.drop_last()).skip(xs.len() - 1),
            xs.last(),
        ));
    }
}

/// A ring of `n` times `quiet` that is fed `xs` delays by `back` places, for
/// every `back` below `n`: it gives the value fed `back` places before the last
/// one, and `quiet` where there was none.
pub proof fn law_ring_delays<S>(n: nat, quiet: S, xs: Seq<S>, back: int)
    requires
        0 < n,
        0 <= back < n,
    ensures
        delayed(fed(constant(n, quiet), xs), back) == if back < xs.len() {
            xs[xs.len() - 1 - back]
        } else {
            quiet
        },
{
    law_fed_keeps_the_newest(constant(n, quiet), xs);
}

} // verus!
