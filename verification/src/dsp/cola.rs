//! The level of overlapping windows.

use vstd::prelude::*;

use crate::math::{
    accumulated, add_up, added_up, lemma_accumulated_none, lemma_accumulated_push, SampleMath,
};

verus! {

/// How many windows overlap at any one sample, when one starts every `hop`
/// samples: at least one.
pub open spec fn overlap_count(n: nat, hop: nat) -> nat
    recommends
        hop > 0,
{
    if n / hop >= 1 {
        n / hop
    } else {
        1
    }
}

/// What the windows that cover sample `i` are worth there: the window that
/// starts `j` hops later is at `i - j * hop`, counted around the circle.
pub open spec fn covering<S>(win: Seq<S>, hop: nat, i: int) -> Seq<S> {
    Seq::new(
        overlap_count(win.len(), hop),
        |j: int| win[(i + win.len() - j * hop) % (win.len() as int)],
    )
}

/// `r` is what the overlapping products of the two windows add up to at
/// sample `i`.
pub open spec fn overlap_at<S, M: SampleMath<S>>(
    m: &M,
    win_a: Seq<S>,
    win_s: Seq<S>,
    hop: nat,
    i: int,
    zero: S,
    r: S,
) -> bool {
    accumulated(
        m,
        covering(win_a, hop, i),
        covering(win_s.take(win_a.len() as int), hop, i),
        zero,
        r,
    )
}

/// `r` is the gain that undoes the overlap: one over the mean of what the
/// overlapping windows add up to. It is one where that mean is not above a
/// millionth, or where there is no hop.
#[verifier::opaque]
pub open spec fn cola_of<S, M: SampleMath<S>>(
    m: &M,
    win_a: Seq<S>,
    win_s: Seq<S>,
    hop: nat,
    r: S,
) -> bool {
    if hop == 0 {
        call_ensures(M::ratio, (m, 1i32, 1u32), r)
    } else {
        exists|
            zero: S,
            probe: Seq<S>,
            total: S,
            count: S,
            mean: S,
            least: S,
            heard: bool,
            one: S,
        | #[trigger]
            cola_of_by(m, win_a, win_s, hop, zero, probe, total, count, mean, least, heard, one, r)
    }
}

/// [`cola_of`] for a hop above zero, with its intermediate values.
pub open spec fn cola_of_by<S, M: SampleMath<S>>(
    m: &M,
    win_a: Seq<S>,
    win_s: Seq<S>,
    hop: nat,
    zero: S,
    probe: Seq<S>,
    total: S,
    count: S,
    mean: S,
    least: S,
    heard: bool,
    one: S,
    r: S,
) -> bool {
    &&& call_ensures(M::ratio, (m, 0i32, 1u32), zero)
    &&& probe.len() == win_a.len()
    &&& forall|i: int|
        0 <= i < win_a.len() ==> overlap_at(m, win_a, win_s, hop, i, zero, #[trigger] probe[i])
    &&& added_up(m, probe, zero, total)
    &&& call_ensures(M::count, (m, win_a.len() as usize), count)
    &&& call_ensures(M::quot, (m, total, count), mean)
    &&& call_ensures(M::ratio, (m, 1i32, 1_000_000u32), least)
    &&& call_ensures(M::less, (m, least, mean), heard)
    &&& call_ensures(M::ratio, (m, 1i32, 1u32), one)
    &&& if heard {
        call_ensures(M::quot, (m, one, mean), r)
    } else {
        r == one
    }
}

fn sum_overlap<S: Copy, M: SampleMath<S>>(
    m: &M,
    win_a: &Vec<S>,
    win_s: &Vec<S>,
    hop: usize,
    i: usize,
    zero: S,
) -> (r: S)
    requires
        0 < hop,
        i < win_a@.len(),
        win_a@.len() <= win_s@.len(),
        2 * win_a@.len() <= usize::MAX,
    ensures
        overlap_at(m, win_a@, win_s@, hop as nat, i as int, zero, r),
{
    let n = win_a.len();
    let fits = n / hop;
    let n_overlap: usize = if fits >= 1 {
        fits
    } else {
        1
    };
    let ghost all_a = covering(win_a@, hop as nat, i as int);
    let ghost all_s = covering(win_s@.take(n as int), hop as nat, i as int);
    let mut acc = zero;
    let mut j: usize = 0;
    proof {
        lemma_accumulated_none(m, zero);
        assert(all_a.take(0) =~= Seq::<S>::empty());
        assert(all_s.take(0) =~= Seq::<S>::empty());
    }
    while j < n_overlap
        invariant
            0 < hop,
            i < n,
            n == win_a@.len(),
            n <= win_s@.len(),
            2 * n <= usize::MAX,
            n_overlap == overlap_count(n as nat, hop as nat),
            all_a == covering(win_a@, hop as nat, i as int),
            all_s == covering(win_s@.take(n as int), hop as nat, i as int),
            j <= n_overlap,
            accumulated(m, all_a.take(j as int), all_s.take(j as int), zero, acc),
        decreases n_overlap - j,
    {
        proof {
            assert(j * hop <= n) by (nonlinear_arith)
                requires
                    0 < hop,
                    j == 0 || (j + 1) <= n / hop,
                    n >= 0,
            {
                if j > 0 {
                    assert((n / hop) * hop <= n);
                }
            }
        }
        let off = j * hop;
        let src = (i + n - off) % n;
        let next = m.mul_add(acc, win_a[src], win_s[src]);
        proof {
            let k = j as int;
            assert(all_a[k] == win_a@[src as int]);
            assert(all_s[k] == win_s@[src as int]);
            lemma_accumulated_push(
                m,
                all_a.take(k),
                all_s.take(k),
                zero,
                acc,
                all_a[k],
                all_s[k],
                next,
            );
            assert(all_a.take(k + 1) =~= all_a.take(k).push(all_a[k]));
            assert(all_s.take(k + 1) =~= all_s.take(k).push(all_s[k]));
        }
        acc = next;
        j = j + 1;
    }
    assert(all_a.take(j as int) =~= all_a);
    assert(all_s.take(j as int) =~= all_s);
    acc
}

/// The gain that undoes the overlap of analysis and synthesis windows, when
/// a pair starts every `hop` samples.
pub fn compute_cola<S: Copy, M: SampleMath<S>>(
    m: &M,
    win_a: &Vec<S>,
    win_s: &Vec<S>,
    hop: usize,
) -> (r: S)
    requires
        hop > 0 ==> win_a@.len() <= win_s@.len(),
        hop > 0 ==> 2 * win_a@.len() <= usize::MAX,
    ensures
        cola_of(m, win_a@, win_s@, hop as nat, r),
{
    proof {
        reveal(cola_of);
    }
    if hop == 0 {
        return m.ratio(1, 1);
    }
    let n = win_a.len();
    let zero = m.ratio(0, 1);
    let mut probe: Vec<S> = Vec::new();
    let mut i: usize = 0;
    while i < n
        invariant
            0 < hop,
            n == win_a@.len(),
            n <= win_s@.len(),
            2 * n <= usize::MAX,
            i <= n,
            probe@.len() == i,
            forall|k: int|
                0 <= k < i ==> overlap_at(
                    m,
                    win_a@,
                    win_s@,
                    hop as nat,
                    k,
                    zero,
                    #[trigger] probe@[k],
                ),
        decreases n - i,
    {
        let level = sum_overlap(m, win_a, win_s, hop, i, zero);
        probe.push(level);
        i = i + 1;
    }
    let total = add_up(m, &probe, zero);
    let count = m.count(n);
    let mean = m.quot(total, count);
    let least = m.ratio(1, 1_000_000);
    let heard = m.less(least, mean);
    let one = m.ratio(1, 1);
    let r = if heard {
        m.quot(one, mean)
    } else {
        one
    };
    assert(cola_of_by(
        m,
        win_a@,
        win_s@,
        hop as nat,
        zero,
        probe@,
        total,
        count,
        mean,
        least,
        heard,
        one,
        r,
    ));
    r
}

} // verus!
