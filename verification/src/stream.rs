//! What it means to process a stream of samples one by one.

use vstd::prelude::*;

verus! {

/// A machine that takes one sample in and gives one out: whether it may go from
/// the first state to the second one while it takes the first sample and gives
/// the second one.
pub type Stepper<V, S> = spec_fn(V, S, V, S) -> bool;

/// The machine may go from `from` to `to` while it takes all of `ins` and gives
/// `outs`.
pub open spec fn streamed<V, S>(
    step: Stepper<V, S>,
    from: V,
    ins: Seq<S>,
    outs: Seq<S>,
    to: V,
) -> bool {
    exists|states: Seq<V>| #[trigger] streamed_by(step, from, ins, outs, states, to)
}

/// [`streamed`], with all the states that the machine passes through.
pub open spec fn streamed_by<V, S>(
    step: Stepper<V, S>,
    from: V,
    ins: Seq<S>,
    outs: Seq<S>,
    states: Seq<V>,
    to: V,
) -> bool {
    &&& states.len() == ins.len() + 1
    &&& outs.len() == ins.len()
    &&& states[0] == from
    &&& states.last() == to
    &&& forall|i: int|
        0 <= i < ins.len() ==> step(#[trigger] states[i], ins[i], states[i + 1], outs[i])
}

/// No sample, no change.
pub proof fn lemma_streamed_none<V, S>(step: Stepper<V, S>, from: V)
    ensures
        streamed(step, from, Seq::<S>::empty(), Seq::<S>::empty(), from),
{
    assert(streamed_by(step, from, Seq::<S>::empty(), Seq::<S>::empty(), seq![from], from));
}

/// One more step extends a stream.
pub proof fn lemma_streamed_push<V, S>(
    step: Stepper<V, S>,
    from: V,
    ins: Seq<S>,
    outs: Seq<S>,
    mid: V,
    x: S,
    y: S,
    to: V,
)
    requires
        streamed(step, from, ins, outs, mid),
        step(mid, x, to, y),
    ensures
        streamed(step, from, ins.push(x), outs.push(y), to),
{
    let states = choose|states: Seq<V>| #[trigger]
        streamed_by(step, from, ins, outs, states, mid);
    let longer = states.push(to);
    assert forall|i: int| 0 <= i < ins.push(x).len() implies step(
        #[trigger] longer[i],
        ins.push(x)[i],
        longer[i + 1],
        outs.push(y)[i],
    ) by {
        if i < ins.len() {
            assert(longer[i] == states[i]);
        }
    }
    assert(streamed_by(step, from, ins.push(x), outs.push(y), longer, to));
}

/// A stream that is not empty ends with a step.
pub proof fn lemma_streamed_pop<V, S>(
    step: Stepper<V, S>,
    from: V,
    ins: Seq<S>,
    outs: Seq<S>,
    to: V,
) -> (mid: V)
    requires
        0 < ins.len(),
        streamed(step, from, ins, outs, to),
    ensures
        outs.len() == ins.len(),
        streamed(step, from, ins.drop_last(), outs.drop_last(), mid),
        step(mid, ins.last(), to, outs.last()),
{
    let states = choose|states: Seq<V>| #[trigger]
        streamed_by(step, from, ins, outs, states, to);
    let n = ins.len() - 1;
    let shorter = states.drop_last();
    assert forall|i: int| 0 <= i < n implies step(
        #[trigger] shorter[i],
        ins.drop_last()[i],
        shorter[i + 1],
        outs.drop_last()[i],
    ) by {
        assert(step(states[i], ins[i], states[i + 1], outs[i]));
    }
    assert(streamed_by(step, from, ins.drop_last(), outs.drop_last(), shorter, states[n]));
    assert(step(states[n], ins[n], states[n + 1], outs[n]));
    states[n]
}

/// Where a stream is cut into blocks makes no difference: processing `ins` and
/// then `more` is processing them as one block.
pub proof fn law_blocks_join<V, S>(
    step: Stepper<V, S>,
    from: V,
    ins: Seq<S>,
    outs: Seq<S>,
    mid: V,
    more: Seq<S>,
    more_outs: Seq<S>,
    to: V,
)
    requires
        streamed(step, from, ins, outs, mid),
        streamed(step, mid, more, more_outs, to),
    ensures
        streamed(step, from, ins + more, outs + more_outs, to),
    decreases more.len(),
{
    if more.len() == 0 {
        assert(ins + more =~= ins);
        assert(outs + more_outs =~= outs);
    } else {
        let before = lemma_streamed_pop(step, mid, more, more_outs, to);
        law_blocks_join(
            step,
            from,
            ins,
            outs,
            mid,
            more.drop_last(),
            more_outs.drop_last(),
            before,
        );
        lemma_streamed_push(
            step,
            from,
            ins + more.drop_last(),
            outs + more_outs.drop_last(),
            before,
            more.last(),
            more_outs.last(),
            to,
        );
        assert((ins + more.drop_last()).push(more.last()) =~= ins + more);
        assert((outs + more_outs.drop_last()).push(more_outs.last()) =~= outs + more_outs);
    }
}

/// Every stream can be cut: a block of `ins` followed by `more` passes through
/// a state that the first part ends in and the second one starts from.
pub proof fn law_blocks_part<V, S>(
    step: Stepper<V, S>,
    from: V,
    ins: Seq<S>,
    outs: Seq<S>,
    more: Seq<S>,
    more_outs: Seq<S>,
    to: V,
) -> (mid: V)
    requires
        ins.len() == outs.len(),
        streamed(step, from, ins + more, outs + more_outs, to),
    ensures
        streamed(step, from, ins, outs, mid),
        streamed(step, mid, more, more_outs, to),
{
    let all_ins = ins + more;
    let all_outs = outs + more_outs;
    let states = choose|states: Seq<V>| #[trigger]
        streamed_by(step, from, all_ins, all_outs, states, to);
    let n = ins.len() as int;
    let mid = states[n];
    let head = states.take(n + 1);
    let tail = states.skip(n);
    assert forall|i: int| 0 <= i < n implies step(
        #[trigger] head[i],
        ins[i],
        head[i + 1],
        outs[i],
    ) by {
        assert(step(states[i], all_ins[i], states[i + 1], all_outs[i]));
    }
    assert(streamed_by(step, from, ins, outs, head, mid));
    assert forall|i: int| 0 <= i < more.len() implies step(
        #[trigger] tail[i],
        more[i],
        tail[i + 1],
        more_outs[i],
    ) by {
        assert(step(states[n + i], all_ins[n + i], states[n + i + 1], all_outs[n + i]));
    }
    assert(streamed_by(step, mid, more, more_outs, tail, to));
    mid
}

} // verus!
