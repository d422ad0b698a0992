//! Frames of the size that the Fourier transform works on.

use vstd::prelude::*;

verus! {

/// The number of samples in one analysis frame, and of bins in its spectrum.
pub const FFT_SIZE: usize = 2048;

/// A frame: always [`FFT_SIZE`] values.
pub struct Frame<C> {
    bins: Vec<C>,
}

impl<C> View for Frame<C> {
    type V = Seq<C>;

    closed spec fn view(&self) -> Seq<C> {
        self.bins@
    }
}

impl<C> Frame<C> {
    #[verifier::type_invariant]
    spec fn full(self) -> bool {
        self.bins@.len() == FFT_SIZE
    }
}

impl<C: Copy> Frame<C> {
    /// A frame of the same value throughout.
    pub fn filled(c: C) -> (f: Self)
        ensures
            f@ == Seq::new(FFT_SIZE as nat, |k: int| c),
    {
        let mut bins: Vec<C> = Vec::new();
        while bins.len() < FFT_SIZE
            invariant
                bins@.len() <= FFT_SIZE,
                forall|k: int| 0 <= k < bins@.len() ==> bins@[k] == c,
            decreases FFT_SIZE - bins.len(),
        {
            bins.push(c);
        }
        let f = Frame { bins };
        assert(f@ =~= Seq::new(FFT_SIZE as nat, |k: int| c));
        f
    }

    /// A frame is full.
    pub fn len(&self) -> (n: usize)
        ensures
            n == self@.len(),
            n == FFT_SIZE,
    {
        proof {
            use_type_invariant(self);
        }
        self.bins.len()
    }

    /// The `k`-th value.
    pub fn get(&self, k: usize) -> (c: C)
        requires
            k < FFT_SIZE,
        ensures
            c == self@[k as int],
    {
        proof {
            use_type_invariant(self);
        }
        self.bins[k]
    }

    /// Replaces the `k`-th value.
    pub fn set(&mut self, k: usize, c: C)
        requires
            k < FFT_SIZE,
        ensures
            final(self)@ == old(self)@.update(k as int, c),
    {
        proof {
            use_type_invariant(&*self);
        }
        self.bins[k] = c;
    }
}

} // verus!
