//! What holds of the runs of composed computations, and bounds on how often
//! they suspend.

use crate::basic::{Perform, Ready};
use crate::coroutine::{
    bind_hands_over, bind_yields, bounded, embeds, forwards, lemma_runs_prepend, runs, AndThen,
    Coroutine, CoroutineState, Mapped, MappedEffect, MappedInput,
};
use vstd::prelude::*;

verus! {

/// `c` has no step on which it suspends.
pub open spec fn never_yields<I, Y, R, C: Coroutine<I, Y, R>>(c: C) -> bool {
    forall|input: I, effect: Y, next: C|
        !#[trigger] c.resumes(input, CoroutineState::Yielded(effect), next)
}

/// `wide` is `narrow` with every effect converted into the wider set.
pub open spec fn embedded<A, B: From<A>>(narrow: Seq<A>, wide: Seq<B>) -> bool {
    &&& narrow.len() == wide.len()
    &&& forall|i: int| 0 <= i < narrow.len() ==> #[trigger] embeds(narrow[i], wide[i])
}

/// `copied` holds, place by place, a copy of what `inputs` holds.
pub open spec fn copies<I: Clone>(inputs: Seq<I>, copied: Seq<I>) -> bool {
    &&& inputs.len() == copied.len()
    &&& forall|i: int| 0 <= i < inputs.len() ==> #[trigger] cloned(inputs[i], copied[i])
}

/// A computation that never suspends completes on its first resumption: every
/// run of it takes one input, raises no effect, and its result is what that
/// one resumption completes with.
pub proof fn lemma_never_yields_completes_at_once<I, Y, R, C: Coroutine<I, Y, R>>(
    c: C,
    inputs: Seq<I>,
    effects: Seq<Y>,
    result: R,
)
    requires
        never_yields(c),
        runs(c, inputs, effects, result),
    ensures
        inputs.len() == 1,
        effects.len() == 0,
        exists|end: C| #[trigger] c.resumes(inputs[0], CoroutineState::Complete(result), end),
{
}

/// A computation made by `ready` has one run for every input: on that input
/// it completes with its value, with no effect before.
pub proof fn lemma_ready_runs<I, E, R>(c: Ready<E, R>, inputs: Seq<I>, effects: Seq<E>, result: R)
    requires
        c.value is Some,
    ensures
        runs(c, inputs, effects, result) <==> inputs.len() == 1 && effects.len() == 0 && result
            == c.value->0,
{
    if inputs.len() == 1 && effects.len() == 0 && result == c.value->0 {
        let end = Ready { value: None::<R>, effect: c.effect };
        assert(c.resumes(inputs[0], CoroutineState::<E, R>::Complete(result), end));
    }
}

/// A computation made by `perform` has one run for every pair of inputs: on
/// the first it suspends with its effect, on the second it completes with
/// that second input.
pub proof fn lemma_perform_runs<I, E>(c: Perform<E>, inputs: Seq<I>, effects: Seq<E>, result: I)
    requires
        c.effect is Some,
        !c.answered,
    ensures
        runs(c, inputs, effects, result) <==> inputs.len() == 2 && effects == seq![c.effect->0]
            && result == inputs[1],
{
    let asked = Perform { effect: None::<E>, answered: false };
    let done = Perform { effect: None::<E>, answered: true };
    if runs(c, inputs, effects, result) {
        assert(inputs.len() >= 2);
        let next = choose|next: Perform<E>|
            {
                &&& #[trigger] c.resumes(
                    inputs[0],
                    CoroutineState::<E, I>::Yielded(effects[0]),
                    next,
                )
                &&& runs(next, inputs.skip(1), effects.skip(1), result)
            };
        assert(inputs.skip(1).len() == 1);
        assert(inputs.skip(1)[0] == inputs[1]);
        assert(effects =~= seq![c.effect->0]);
    }
    if inputs.len() == 2 && effects == seq![c.effect->0] && result == inputs[1] {
        assert(c.resumes(inputs[0], CoroutineState::<E, I>::Yielded(effects[0]), asked));
        assert(asked.resumes(inputs.skip(1)[0], CoroutineState::<E, I>::Complete(result), done));
        assert(runs(asked, inputs.skip(1), effects.skip(1), result));
    }
}

/// The runs of `map(C, f)` are the runs of `C` with `f` applied to the
/// result: the same inputs, the same effects in the same order, and a result
/// that `f` gives for the result of `C`.
pub proof fn lemma_map_runs<I, E, T, U, G: Coroutine<I, E, T>, K: FnOnce(T) -> U>(
    m: Mapped<G, K, T>,
    inputs: Seq<I>,
    effects: Seq<E>,
    result: U,
)
    requires
        m.finish is Some,
    ensures
        runs(m, inputs, effects, result) <==> exists|t: T|
            #[trigger] runs(m.inner, inputs, effects, t) && call_ensures(m.finish->0, (t,), result),
    decreases inputs.len(),
{
    if inputs.len() == 0 {
    } else if inputs.len() == 1 {
        if runs(m, inputs, effects, result) {
            let end = choose|end: Mapped<G, K, T>| #[trigger]
                m.resumes(inputs[0], CoroutineState::Complete(result), end);
            let t = choose|t: T|
                {
                    &&& #[trigger] m.inner.resumes(inputs[0], CoroutineState::Complete(t), end.inner)
                    &&& call_ensures(m.finish->0, (t,), result)
                };
            assert(runs(m.inner, inputs, effects, t));
        }
        if exists|t: T|
            #[trigger] runs(m.inner, inputs, effects, t) && call_ensures(m.finish->0, (t,), result) {
            let t = choose|t: T|
                #[trigger] runs(m.inner, inputs, effects, t) && call_ensures(
                    m.finish->0,
                    (t,),
                    result,
                );
            let end = choose|end: G| #[trigger]
                m.inner.resumes(inputs[0], CoroutineState::Complete(t), end);
            let after = Mapped { inner: end, finish: None::<K>, source: m.source };
            assert(m.inner.resumes(inputs[0], CoroutineState::Complete(t), after.inner));
            assert(m.resumes(inputs[0], CoroutineState::Complete(result), after));
        }
    } else {
        if runs(m, inputs, effects, result) {
            let next = choose|next: Mapped<G, K, T>|
                {
                    &&& #[trigger] m.resumes(inputs[0], CoroutineState::Yielded(effects[0]), next)
                    &&& runs(next, inputs.skip(1), effects.skip(1), result)
                };
            lemma_map_runs(next, inputs.skip(1), effects.skip(1), result);
            let t = choose|t: T|
                #[trigger] runs(next.inner, inputs.skip(1), effects.skip(1), t) && call_ensures(
                    next.finish->0,
                    (t,),
                    result,
                );
            assert(m.inner.resumes(inputs[0], CoroutineState::Yielded(effects[0]), next.inner));
            assert(runs(m.inner, inputs, effects, t));
        }
        if exists|t: T|
            #[trigger] runs(m.inner, inputs, effects, t) && call_ensures(m.finish->0, (t,), result) {
            let t = choose|t: T|
                #[trigger] runs(m.inner, inputs, effects, t) && call_ensures(
                    m.finish->0,
                    (t,),
                    result,
                );
            let inner = choose|inner: G|
                {
                    &&& #[trigger] m.inner.resumes(
                        inputs[0],
                        CoroutineState::Yielded(effects[0]),
                        inner,
                    )
                    &&& runs(inner, inputs.skip(1), effects.skip(1), t)
                };
            let next = Mapped { inner, finish: m.finish, source: m.source };
            lemma_map_runs(next, inputs.skip(1), effects.skip(1), result);
            assert(runs(next.inner, inputs.skip(1), effects.skip(1), t));
            assert(m.resumes(inputs[0], CoroutineState::Yielded(effects[0]), next));
        }
    }
}

/// The runs of `map_effect(C)` are the runs of `C` with every effect
/// converted: the same inputs, the same result, and effect by effect what the
/// conversion gives.
pub proof fn lemma_map_effect_runs<I, E1, E: From<E1>, R, G: Coroutine<I, E1, R>>(
    m: MappedEffect<G, (E1, E)>,
    inputs: Seq<I>,
    effects: Seq<E>,
    result: R,
)
    ensures
        runs(m, inputs, effects, result) <==> exists|narrow: Seq<E1>|
            #[trigger] runs(m.inner, inputs, narrow, result) && embedded(narrow, effects),
    decreases inputs.len(),
{
    if runs(m, inputs, effects, result) {
        let narrow = lemma_forwarded_runs_narrow(m, inputs, effects, result);
    }
    if exists|narrow: Seq<E1>|
        #[trigger] runs(m.inner, inputs, narrow, result) && embedded(narrow, effects) {
        let narrow = choose|narrow: Seq<E1>|
            #[trigger] runs(m.inner, inputs, narrow, result) && embedded(narrow, effects);
        lemma_forwarded_runs_wide(m, inputs, narrow, effects, result);
    }
}

/// From a run of `map_effect(C)` to the run of `C` behind it.
proof fn lemma_forwarded_runs_narrow<I, E1, E: From<E1>, R, G: Coroutine<I, E1, R>>(
    m: MappedEffect<G, (E1, E)>,
    inputs: Seq<I>,
    effects: Seq<E>,
    result: R,
) -> (narrow: Seq<E1>)
    requires
        runs(m, inputs, effects, result),
    ensures
        runs(m.inner, inputs, narrow, result),
        embedded(narrow, effects),
    decreases inputs.len(),
{
    if inputs.len() == 1 {
        let end = choose|end: MappedEffect<G, (E1, E)>| #[trigger]
            m.resumes(inputs[0], CoroutineState::Complete(result), end);
        assert(m.inner.resumes(inputs[0], CoroutineState::Complete(result), end.inner));
        Seq::empty()
    } else {
        let next = choose|next: MappedEffect<G, (E1, E)>|
            {
                &&& #[trigger] m.resumes(inputs[0], CoroutineState::Yielded(effects[0]), next)
                &&& runs(next, inputs.skip(1), effects.skip(1), result)
            };
        let first = choose|first: E1|
            {
                &&& #[trigger] m.inner.resumes(
                    inputs[0],
                    CoroutineState::Yielded(first),
                    next.inner,
                )
                &&& embeds(first, effects[0])
            };
        let others = lemma_forwarded_runs_narrow(next, inputs.skip(1), effects.skip(1), result);
        lemma_runs_prepend(
            m.inner,
            inputs[0],
            first,
            next.inner,
            inputs.skip(1),
            others,
            result,
        );
        let narrow = seq![first] + others;
        assert(seq![inputs[0]] + inputs.skip(1) =~= inputs);
        assert forall|i: int| 0 <= i < narrow.len() implies #[trigger] embeds(
            narrow[i],
            effects[i],
        ) by {
            if i > 0 {
                assert(embeds(others[i - 1], effects.skip(1)[i - 1]));
            }
        }
        narrow
    }
}

/// From a run of `C` to the run of `map_effect(C)` in front of it.
proof fn lemma_forwarded_runs_wide<I, E1, E: From<E1>, R, G: Coroutine<I, E1, R>>(
    m: MappedEffect<G, (E1, E)>,
    inputs: Seq<I>,
    narrow: Seq<E1>,
    effects: Seq<E>,
    result: R,
)
    requires
        runs(m.inner, inputs, narrow, result),
        embedded(narrow, effects),
    ensures
        runs(m, inputs, effects, result),
    decreases inputs.len(),
{
    if inputs.len() == 1 {
        let end = choose|end: G| #[trigger]
            m.inner.resumes(inputs[0], CoroutineState::Complete(result), end);
        let after = MappedEffect { inner: end, effects: m.effects };
        assert(m.resumes(inputs[0], CoroutineState::Complete(result), after));
    } else {
        let inner = choose|inner: G|
            {
                &&& #[trigger] m.inner.resumes(inputs[0], CoroutineState::Yielded(narrow[0]), inner)
                &&& runs(inner, inputs.skip(1), narrow.skip(1), result)
            };
        let next = MappedEffect { inner, effects: m.effects };
        assert forall|i: int| 0 <= i < narrow.skip(1).len() implies #[trigger] embeds(
            narrow.skip(1)[i],
            effects.skip(1)[i],
        ) by {
            assert(embeds(narrow[i + 1], effects[i + 1]));
        }
        lemma_forwarded_runs_wide(next, inputs.skip(1), narrow.skip(1), effects.skip(1), result);
        assert(embeds(narrow[0], effects[0]));
        assert(forwards(m.inner, inputs[0], CoroutineState::<E, R>::Yielded(effects[0]), inner));
        assert(m.resumes(inputs[0], CoroutineState::Yielded(effects[0]), next));
    }
}

/// `native` holds, place by place, what the conversion of `inputs` gives.
pub open spec fn converted<A, B: From<A>>(inputs: Seq<A>, native: Seq<B>) -> bool {
    &&& inputs.len() == native.len()
    &&& forall|i: int| 0 <= i < inputs.len() ==> #[trigger] embeds(inputs[i], native[i])
}

/// The runs of `map_input(C)` are the runs of `C` on the converted inputs:
/// the same effects and the same result.
pub proof fn lemma_map_input_runs<I1: From<I2>, I2, E, R, G: Coroutine<I1, E, R>>(
    m: MappedInput<G, I1>,
    inputs: Seq<I2>,
    effects: Seq<E>,
    result: R,
)
    ensures
        runs(m, inputs, effects, result) <==> exists|native: Seq<I1>|
            converted(inputs, native) && #[trigger] runs(m.inner, native, effects, result),
{
    if runs(m, inputs, effects, result) {
        let native = lemma_adapted_runs_native(m, inputs, effects, result);
    }
    if exists|native: Seq<I1>|
        converted(inputs, native) && #[trigger] runs(m.inner, native, effects, result) {
        let native = choose|native: Seq<I1>|
            converted(inputs, native) && #[trigger] runs(m.inner, native, effects, result);
        lemma_adapted_runs_given(m, inputs, native, effects, result);
    }
}

/// From a run of `map_input(C)` to the run of `C` behind it.
proof fn lemma_adapted_runs_native<I1: From<I2>, I2, E, R, G: Coroutine<I1, E, R>>(
    m: MappedInput<G, I1>,
    inputs: Seq<I2>,
    effects: Seq<E>,
    result: R,
) -> (native: Seq<I1>)
    requires
        runs(m, inputs, effects, result),
    ensures
        converted(inputs, native),
        runs(m.inner, native, effects, result),
    decreases inputs.len(),
{
    if inputs.len() == 1 {
        let end = choose|end: MappedInput<G, I1>| #[trigger]
            m.resumes(inputs[0], CoroutineState::Complete(result), end);
        let first = choose|first: I1|
            {
                &&& embeds(inputs[0], first)
                &&& #[trigger] m.inner.resumes(first, CoroutineState::Complete(result), end.inner)
            };
        let native = seq![first];
        assert(m.inner.resumes(native[0], CoroutineState::Complete(result), end.inner));
        native
    } else {
        let next = choose|next: MappedInput<G, I1>|
            {
                &&& #[trigger] m.resumes(inputs[0], CoroutineState::Yielded(effects[0]), next)
                &&& runs(next, inputs.skip(1), effects.skip(1), result)
            };
        let first = choose|first: I1|
            {
                &&& embeds(inputs[0], first)
                &&& #[trigger] m.inner.resumes(
                    first,
                    CoroutineState::Yielded(effects[0]),
                    next.inner,
                )
            };
        let others = lemma_adapted_runs_native(next, inputs.skip(1), effects.skip(1), result);
        lemma_runs_prepend(
            m.inner,
            first,
            effects[0],
            next.inner,
            others,
            effects.skip(1),
            result,
        );
        let native = seq![first] + others;
        assert(seq![effects[0]] + effects.skip(1) =~= effects);
        assert forall|i: int| 0 <= i < inputs.len() implies #[trigger] embeds(
            inputs[i],
            native[i],
        ) by {
            if i > 0 {
                assert(embeds(inputs.skip(1)[i - 1], others[i - 1]));
            }
        }
        native
    }
}

/// From a run of `C` on converted inputs to the run of `map_input(C)`.
proof fn lemma_adapted_runs_given<I1: From<I2>, I2, E, R, G: Coroutine<I1, E, R>>(
    m: MappedInput<G, I1>,
    inputs: Seq<I2>,
    native: Seq<I1>,
    effects: Seq<E>,
    result: R,
)
    requires
        converted(inputs, native),
        runs(m.inner, native, effects, result),
    ensures
        runs(m, inputs, effects, result),
    decreases inputs.len(),
{
    assert(embeds(inputs[0], native[0]));
    if inputs.len() == 1 {
        let end = choose|end: G| #[trigger]
            m.inner.resumes(native[0], CoroutineState::Complete(result), end);
        let after = MappedInput { inner: end, native: m.native };
        assert(m.inner.resumes(native[0], CoroutineState::Complete(result), after.inner));
        assert(m.resumes(inputs[0], CoroutineState::Complete(result), after));
    } else {
        let inner = choose|inner: G|
            {
                &&& #[trigger] m.inner.resumes(native[0], CoroutineState::Yielded(effects[0]), inner)
                &&& runs(inner, native.skip(1), effects.skip(1), result)
            };
        let next = MappedInput { inner, native: m.native };
        assert forall|i: int| 0 <= i < inputs.skip(1).len() implies #[trigger] embeds(
            inputs.skip(1)[i],
            native.skip(1)[i],
        ) by {
            assert(embeds(inputs[i + 1], native[i + 1]));
        }
        lemma_adapted_runs_given(next, inputs.skip(1), native.skip(1), effects.skip(1), result);
        assert(m.inner.resumes(native[0], CoroutineState::Yielded(effects[0]), next.inner));
        assert(m.resumes(inputs[0], CoroutineState::Yielded(effects[0]), next));
    }
}

/// From a run of a sequence that is already in its second computation to the
/// run of that computation behind it.
proof fn lemma_second_runs_narrow<I: Clone, E1, E2, E, U, T, G, K, F>(
    b: AndThen<G, K, F, (E1, U, E2, E)>,
    inputs: Seq<I>,
    effects: Seq<E>,
    result: T,
) -> (narrow: Seq<E2>) where
    G: Coroutine<I, E1, U>,
    F: Coroutine<I, E2, T>,
    K: FnOnce(U) -> F,
    E: From<E1> + From<E2>,

    requires
        b.rest is Some,
        runs(b, inputs, effects, result),
    ensures
        runs(b.rest->0, inputs, narrow, result),
        embedded(narrow, effects),
    decreases inputs.len(),
{
    let second = b.rest->0;
    if inputs.len() == 1 {
        let end = choose|end: AndThen<G, K, F, (E1, U, E2, E)>| #[trigger]
            b.resumes(inputs[0], CoroutineState::Complete(result), end);
        assert(second.resumes(inputs[0], CoroutineState::Complete(result), end.rest->0));
        Seq::empty()
    } else {
        let next = choose|next: AndThen<G, K, F, (E1, U, E2, E)>|
            {
                &&& #[trigger] b.resumes(inputs[0], CoroutineState::Yielded(effects[0]), next)
                &&& runs(next, inputs.skip(1), effects.skip(1), result)
            };
        let first = choose|first: E2|
            {
                &&& #[trigger] second.resumes(
                    inputs[0],
                    CoroutineState::Yielded(first),
                    next.rest->0,
                )
                &&& embeds(first, effects[0])
            };
        let others = lemma_second_runs_narrow(next, inputs.skip(1), effects.skip(1), result);
        lemma_runs_prepend(
            second,
            inputs[0],
            first,
            next.rest->0,
            inputs.skip(1),
            others,
            result,
        );
        let narrow = seq![first] + others;
        assert(seq![inputs[0]] + inputs.skip(1) =~= inputs);
        assert forall|i: int| 0 <= i < narrow.len() implies #[trigger] embeds(
            narrow[i],
            effects[i],
        ) by {
            if i > 0 {
                assert(embeds(others[i - 1], effects.skip(1)[i - 1]));
            }
        }
        narrow
    }
}

/// From a run of the second computation to the run of the sequence that is
/// already in it.
proof fn lemma_second_runs_wide<I: Clone, E1, E2, E, U, T, G, K, F>(
    b: AndThen<G, K, F, (E1, U, E2, E)>,
    inputs: Seq<I>,
    narrow: Seq<E2>,
    effects: Seq<E>,
    result: T,
) where
    G: Coroutine<I, E1, U>,
    F: Coroutine<I, E2, T>,
    K: FnOnce(U) -> F,
    E: From<E1> + From<E2>,

    requires
        b.rest is Some,
        runs(b.rest->0, inputs, narrow, result),
        embedded(narrow, effects),
    ensures
        runs(b, inputs, effects, result),
    decreases inputs.len(),
{
    let second = b.rest->0;
    if inputs.len() == 1 {
        let end = choose|end: F| #[trigger]
            second.resumes(inputs[0], CoroutineState::Complete(result), end);
        let after = AndThen { source: b.source, make: b.make, rest: Some(end), types: b.types };
        assert(forwards(second, inputs[0], CoroutineState::<E, T>::Complete(result), end));
        assert(b.resumes(inputs[0], CoroutineState::Complete(result), after));
    } else {
        let inner = choose|inner: F|
            {
                &&& #[trigger] second.resumes(inputs[0], CoroutineState::Yielded(narrow[0]), inner)
                &&& runs(inner, inputs.skip(1), narrow.skip(1), result)
            };
        let next = AndThen { source: b.source, make: b.make, rest: Some(inner), types: b.types };
        assert forall|i: int| 0 <= i < narrow.skip(1).len() implies #[trigger] embeds(
            narrow.skip(1)[i],
            effects.skip(1)[i],
        ) by {
            assert(embeds(narrow[i + 1], effects[i + 1]));
        }
        lemma_second_runs_wide(next, inputs.skip(1), narrow.skip(1), effects.skip(1), result);
        assert(embeds(narrow[0], effects[0]));
        assert(forwards(
            second,
            inputs[0],
            CoroutineState::<E, T>::Yielded(effects[0]),
            inner,
        ));
        assert(b.resumes(inputs[0], CoroutineState::Yielded(effects[0]), next));
    }
}

/// A run of `bind(C, g)` laid out as its two parts: `C` runs on copies of
/// the inputs up to and with the one at `turn`, raises `first` and completes
/// with `v`; `g` makes `second` of `v`; `second` runs on the inputs from the
/// one at `turn` on, raises `last` and completes with `result`. The effects
/// of the whole are `first` and after it `last`, each effect converted.
pub open spec fn chains_at<I: Clone, E1, E2, E, U, T, G, K, F>(
    b: AndThen<G, K, F, (E1, U, E2, E)>,
    inputs: Seq<I>,
    effects: Seq<E>,
    result: T,
    turn: int,
    copied: Seq<I>,
    first: Seq<E1>,
    v: U,
    second: F,
    last: Seq<E2>,
) -> bool where
    G: Coroutine<I, E1, U>,
    F: Coroutine<I, E2, T>,
    K: FnOnce(U) -> F,
    E: From<E1> + From<E2>,
 {
    &&& 0 <= turn < inputs.len()
    &&& effects.len() == inputs.len() - 1
    &&& copies(inputs.take(turn + 1), copied)
    &&& runs(b.source, copied, first, v)
    &&& call_ensures(b.make->0, (v,), second)
    &&& runs(second, inputs.skip(turn), last, result)
    &&& embedded(first, effects.take(turn))
    &&& embedded(last, effects.skip(turn))
}

/// Some layout of `inputs`, `effects` and `result` is a run of `C` followed
/// by a run of what `g` makes of its result.
pub open spec fn chains<I: Clone, E1, E2, E, U, T, G, K, F>(
    b: AndThen<G, K, F, (E1, U, E2, E)>,
    inputs: Seq<I>,
    effects: Seq<E>,
    result: T,
) -> bool where
    G: Coroutine<I, E1, U>,
    F: Coroutine<I, E2, T>,
    K: FnOnce(U) -> F,
    E: From<E1> + From<E2>,
 {
    exists|
        turn: int,
        copied: Seq<I>,
        first: Seq<E1>,
        v: U,
        second: F,
        last: Seq<E2>,
    | #[trigger] chains_at(b, inputs, effects, result, turn, copied, first, v, second, last)
}

/// The runs of `bind(C, g)` are the runs of `C` followed by the runs of what
/// `g` makes of the result of `C`: first all effects of `C` in their order,
/// after them all effects of `g(v)` in theirs, never mixed, and the result is
/// that of `g(v)`.
pub proof fn lemma_bind_runs<I: Clone, E1, E2, E, U, T, G, K, F>(
    b: AndThen<G, K, F, (E1, U, E2, E)>,
    inputs: Seq<I>,
    effects: Seq<E>,
    result: T,
) where
    G: Coroutine<I, E1, U>,
    F: Coroutine<I, E2, T>,
    K: FnOnce(U) -> F,
    E: From<E1> + From<E2>,

    requires
        b.rest is None,
        b.make is Some,
    ensures
        runs(b, inputs, effects, result) <==> chains(b, inputs, effects, result),
{
    if runs(b, inputs, effects, result) {
        lemma_bind_runs_split(b, inputs, effects, result);
    }
    if chains(b, inputs, effects, result) {
        let (turn, copied, first, v, second, last) = choose|
            turn: int,
            copied: Seq<I>,
            first: Seq<E1>,
            v: U,
            second: F,
            last: Seq<E2>,
        | #[trigger] chains_at(b, inputs, effects, result, turn, copied, first, v, second, last);
        lemma_bind_runs_join(b, inputs, effects, result, turn, copied, first, v, second, last);
    }
}

/// Every run of `bind(C, g)` falls into a run of `C` and a run of `g(v)`.
proof fn lemma_bind_runs_split<I: Clone, E1, E2, E, U, T, G, K, F>(
    b: AndThen<G, K, F, (E1, U, E2, E)>,
    inputs: Seq<I>,
    effects: Seq<E>,
    result: T,
) where
    G: Coroutine<I, E1, U>,
    F: Coroutine<I, E2, T>,
    K: FnOnce(U) -> F,
    E: From<E1> + From<E2>,

    requires
        b.rest is None,
        b.make is Some,
        runs(b, inputs, effects, result),
    ensures
        chains(b, inputs, effects, result),
    decreases inputs.len(),
{
    let state = if inputs.len() == 1 {
        CoroutineState::<E, T>::Complete(result)
    } else {
        CoroutineState::<E, T>::Yielded(effects[0])
    };
    let next = if inputs.len() == 1 {
        choose|end: AndThen<G, K, F, (E1, U, E2, E)>| #[trigger] b.resumes(inputs[0], state, end)
    } else {
        choose|next: AndThen<G, K, F, (E1, U, E2, E)>|
            {
                &&& #[trigger] b.resumes(inputs[0], CoroutineState::Yielded(effects[0]), next)
                &&& runs(next, inputs.skip(1), effects.skip(1), result)
            }
    };
    assert(b.resumes(inputs[0], state, next));
    let copy = choose|copy: I| #[trigger]
        cloned(inputs[0], copy) && (bind_yields(b, copy, state, next) || bind_hands_over(
            b,
            inputs[0],
            copy,
            state,
            next,
        ));
    if bind_yields(b, copy, state, next) {
        let narrow = choose|narrow: E1|
            {
                &&& #[trigger] b.source.resumes(
                    copy,
                    CoroutineState::Yielded(narrow),
                    next.source,
                )
                &&& embeds(narrow, effects[0])
            };
        lemma_bind_runs_split(next, inputs.skip(1), effects.skip(1), result);
        let (turn, copied, first, v, second, last) = choose|
            turn: int,
            copied: Seq<I>,
            first: Seq<E1>,
            v: U,
            second: F,
            last: Seq<E2>,
        | #[trigger]
            chains_at(
                next,
                inputs.skip(1),
                effects.skip(1),
                result,
                turn,
                copied,
                first,
                v,
                second,
                last,
            );
        lemma_runs_prepend(b.source, copy, narrow, next.source, copied, first, v);
        let all_copied = seq![copy] + copied;
        let all_first = seq![narrow] + first;
        assert(inputs.skip(1).skip(turn) =~= inputs.skip(turn + 1));
        assert(effects.skip(1).skip(turn) =~= effects.skip(turn + 1));
        assert forall|i: int| 0 <= i < inputs.take(turn + 2).len() implies #[trigger] cloned(
            inputs.take(turn + 2)[i],
            all_copied[i],
        ) by {
            if i > 0 {
                assert(cloned(inputs.skip(1).take(turn + 1)[i - 1], copied[i - 1]));
            }
        }
        assert forall|i: int| 0 <= i < all_first.len() implies #[trigger] embeds(
            all_first[i],
            effects.take(turn + 1)[i],
        ) by {
            if i > 0 {
                assert(embeds(first[i - 1], effects.skip(1).take(turn)[i - 1]));
            }
        }
        assert(copies(inputs.take(turn + 2), all_copied));
        assert(runs(b.source, all_copied, all_first, v));
        assert(call_ensures(b.make->0, (v,), second));
        assert(runs(second, inputs.skip(turn + 1), last, result));
        assert(embedded(all_first, effects.take(turn + 1)));
        assert(embedded(last, effects.skip(turn + 1)));
        assert(chains_at(
            b,
            inputs,
            effects,
            result,
            turn + 1,
            all_copied,
            all_first,
            v,
            second,
            last,
        ));
    } else {
        let (v, second) = choose|v: U, second: F|
            {
                &&& #[trigger] b.source.resumes(copy, CoroutineState::Complete(v), next.source)
                &&& #[trigger] call_ensures(b.make->0, (v,), second)
                &&& forwards(second, inputs[0], state, next.rest->0)
            };
        let copied = seq![copy];
        let first = Seq::<E1>::empty();
        assert(b.source.resumes(copied[0], CoroutineState::Complete(v), next.source));
        assert(runs(b.source, copied, first, v));
        assert(inputs.skip(0) =~= inputs);
        assert(effects.skip(0) =~= effects);
        assert(cloned(inputs.take(1)[0], copied[0]));
        if inputs.len() == 1 {
            let last = Seq::<E2>::empty();
            assert(second.resumes(inputs[0], CoroutineState::Complete(result), next.rest->0));
            assert(runs(second, inputs, last, result));
            assert(chains_at(b, inputs, effects, result, 0, copied, first, v, second, last));
        } else {
            let narrow = choose|narrow: E2|
                {
                    &&& #[trigger] second.resumes(
                        inputs[0],
                        CoroutineState::Yielded(narrow),
                        next.rest->0,
                    )
                    &&& embeds(narrow, effects[0])
                };
            let others = lemma_second_runs_narrow(next, inputs.skip(1), effects.skip(1), result);
            lemma_runs_prepend(
                second,
                inputs[0],
                narrow,
                next.rest->0,
                inputs.skip(1),
                others,
                result,
            );
            let last = seq![narrow] + others;
            assert(seq![inputs[0]] + inputs.skip(1) =~= inputs);
            assert forall|i: int| 0 <= i < last.len() implies #[trigger] embeds(
                last[i],
                effects[i],
            ) by {
                if i > 0 {
                    assert(embeds(others[i - 1], effects.skip(1)[i - 1]));
                }
            }
            assert(chains_at(b, inputs, effects, result, 0, copied, first, v, second, last));
        }
    }
}

/// A run of `C` and a run of `g(v)` make a run of `bind(C, g)`.
proof fn lemma_bind_runs_join<I: Clone, E1, E2, E, U, T, G, K, F>(
    b: AndThen<G, K, F, (E1, U, E2, E)>,
    inputs: Seq<I>,
    effects: Seq<E>,
    result: T,
    turn: int,
    copied: Seq<I>,
    first: Seq<E1>,
    v: U,
    second: F,
    last: Seq<E2>,
) where
    G: Coroutine<I, E1, U>,
    F: Coroutine<I, E2, T>,
    K: FnOnce(U) -> F,
    E: From<E1> + From<E2>,

    requires
        b.rest is None,
        b.make is Some,
        chains_at(b, inputs, effects, result, turn, copied, first, v, second, last),
    ensures
        runs(b, inputs, effects, result),
    decreases turn,
{
    assert(cloned(inputs.take(turn + 1)[0], copied[0]));
    assert(cloned(inputs[0], copied[0]));
    if turn == 0 {
        let end = choose|end: G| #[trigger]
            b.source.resumes(copied[0], CoroutineState::Complete(v), end);
        assert(inputs.skip(0) =~= inputs);
        assert(effects.skip(0) =~= effects);
        if inputs.len() == 1 {
            let done = choose|done: F| #[trigger]
                second.resumes(inputs[0], CoroutineState::Complete(result), done);
            let after = AndThen { source: end, make: None::<K>, rest: Some(done), types: b.types };
            let state = CoroutineState::<E, T>::Complete(result);
            assert(forwards(second, inputs[0], state, done));
            assert(b.source.resumes(copied[0], CoroutineState::Complete(v), after.source));
            assert(bind_hands_over(b, inputs[0], copied[0], state, after));
            assert(b.resumes(inputs[0], state, after));
        } else {
            let inner = choose|inner: F|
                {
                    &&& #[trigger] second.resumes(
                        inputs[0],
                        CoroutineState::Yielded(last[0]),
                        inner,
                    )
                    &&& runs(inner, inputs.skip(1), last.skip(1), result)
                };
            let next = AndThen { source: end, make: None::<K>, rest: Some(inner), types: b.types };
            let state = CoroutineState::<E, T>::Yielded(effects[0]);
            assert(embeds(last[0], effects[0]));
            assert(forwards(second, inputs[0], state, inner));
            assert(b.source.resumes(copied[0], CoroutineState::Complete(v), next.source));
            assert(bind_hands_over(b, inputs[0], copied[0], state, next));
            assert(b.resumes(inputs[0], state, next));
            assert forall|i: int| 0 <= i < last.skip(1).len() implies #[trigger] embeds(
                last.skip(1)[i],
                effects.skip(1)[i],
            ) by {
                assert(embeds(last[i + 1], effects[i + 1]));
            }
            lemma_second_runs_wide(next, inputs.skip(1), last.skip(1), effects.skip(1), result);
        }
    } else {
        let inner = choose|inner: G|
            {
                &&& #[trigger] b.source.resumes(
                    copied[0],
                    CoroutineState::Yielded(first[0]),
                    inner,
                )
                &&& runs(inner, copied.skip(1), first.skip(1), v)
            };
        let next = AndThen { source: inner, make: b.make, rest: None::<F>, types: b.types };
        let state = CoroutineState::<E, T>::Yielded(effects[0]);
        assert(embeds(first[0], effects.take(turn)[0]));
        assert(b.source.resumes(copied[0], CoroutineState::Yielded(first[0]), next.source));
        assert(bind_yields(b, copied[0], state, next));
        assert(b.resumes(inputs[0], state, next));
        assert(inputs.skip(1).skip(turn - 1) =~= inputs.skip(turn));
        assert(effects.skip(1).skip(turn - 1) =~= effects.skip(turn));
        assert forall|i: int| 0 <= i < inputs.skip(1).take(turn).len() implies #[trigger] cloned(
            inputs.skip(1).take(turn)[i],
            copied.skip(1)[i],
        ) by {
            assert(cloned(inputs.take(turn + 1)[i + 1], copied[i + 1]));
        }
        assert forall|i: int| 0 <= i < first.skip(1).len() implies #[trigger] embeds(
            first.skip(1)[i],
            effects.skip(1).take(turn - 1)[i],
        ) by {
            assert(embeds(first[i + 1], effects.take(turn)[i + 1]));
        }
        assert(chains_at(
            next,
            inputs.skip(1),
            effects.skip(1),
            result,
            turn - 1,
            copied.skip(1),
            first.skip(1),
            v,
            second,
            last,
        ));
        lemma_bind_runs_join(
            next,
            inputs.skip(1),
            effects.skip(1),
            result,
            turn - 1,
            copied.skip(1),
            first.skip(1),
            v,
            second,
            last,
        );
    }
}

/// A bound on the suspensions of a computation holds of every larger number.
pub proof fn lemma_bounded_weaken<I, Y, R, C: Coroutine<I, Y, R>>(c: C, n: nat, m: nat)
    requires
        bounded(c, n),
        n <= m,
    ensures
        bounded(c, m),
    decreases n,
{
    assert forall|input: I, effect: Y, next: C| #[trigger]
        c.resumes(input, CoroutineState::Yielded(effect), next) implies m > 0 && bounded(
        next,
        (m - 1) as nat,
    ) by {
        lemma_bounded_weaken(next, (n - 1) as nat, (m - 1) as nat);
    }
}

/// A computation made by `ready` never suspends.
pub proof fn lemma_ready_bounded<I, E, R>(c: Ready<E, R>)
    ensures
        bounded::<I, E, R, Ready<E, R>>(c, 0),
{
}

/// A computation made by `perform` suspends at most once.
pub proof fn lemma_perform_bounded<I, E>(c: Perform<E>)
    ensures
        bounded::<I, E, I, Perform<E>>(c, 1),
{
    assert forall|input: I, effect: E, next: Perform<E>| #[trigger]
        c.resumes(input, CoroutineState::Yielded(effect), next) implies bounded::<I, E, I, Perform<E>>(
        next,
        0,
    ) by {
        assert(next.effect is None);
    }
}

/// `map(C, f)` suspends no more often than `C`.
pub proof fn lemma_map_bounded<I, E, T, U, G: Coroutine<I, E, T>, K: FnOnce(T) -> U>(
    m: Mapped<G, K, T>,
    n: nat,
)
    requires
        bounded(m.inner, n),
    ensures
        bounded(m, n),
    decreases n,
{
    assert forall|input: I, effect: E, next: Mapped<G, K, T>| #[trigger]
        m.resumes(input, CoroutineState::Yielded(effect), next) implies n > 0 && bounded(
        next,
        (n - 1) as nat,
    ) by {
        assert(m.inner.resumes(input, CoroutineState::Yielded(effect), next.inner));
        lemma_map_bounded(next, (n - 1) as nat);
    }
}

/// `map_effect(C)` suspends no more often than `C`.
pub proof fn lemma_map_effect_bounded<I, E1, E: From<E1>, R, G: Coroutine<I, E1, R>>(
    m: MappedEffect<G, (E1, E)>,
    n: nat,
)
    requires
        bounded(m.inner, n),
    ensures
        bounded(m, n),
    decreases n,
{
    assert forall|input: I, effect: E, next: MappedEffect<G, (E1, E)>| #[trigger]
        m.resumes(input, CoroutineState::Yielded(effect), next) implies n > 0 && bounded(
        next,
        (n - 1) as nat,
    ) by {
        let narrow = choose|narrow: E1|
            {
                &&& #[trigger] m.inner.resumes(
                    input,
                    CoroutineState::Yielded(narrow),
                    next.inner,
                )
                &&& embeds(narrow, effect)
            };
        lemma_map_effect_bounded(next, (n - 1) as nat);
    }
}

/// `map_input(C)` suspends no more often than `C`.
pub proof fn lemma_map_input_bounded<I1: From<I2>, I2, E, R, G: Coroutine<I1, E, R>>(
    m: MappedInput<G, I1>,
    n: nat,
)
    requires
        bounded(m.inner, n),
    ensures
        bounded(m, n),
    decreases n,
{
    assert forall|input: I2, effect: E, next: MappedInput<G, I1>| #[trigger]
        m.resumes(input, CoroutineState::Yielded(effect), next) implies n > 0 && bounded(
        next,
        (n - 1) as nat,
    ) by {
        let native = choose|native: I1|
            {
                &&& embeds(input, native)
                &&& #[trigger] m.inner.resumes(
                    native,
                    CoroutineState::Yielded(effect),
                    next.inner,
                )
            };
        lemma_map_input_bounded(next, (n - 1) as nat);
    }
}

/// A sequence that is in its second computation suspends no more often than
/// that computation.
pub proof fn lemma_bind_second_bounded<I: Clone, E1, E2, E, U, T, G, K, F>(b: AndThen<G, K, F, (E1, U, E2, E)>, n: nat) where
    G: Coroutine<I, E1, U>,
    F: Coroutine<I, E2, T>,
    K: FnOnce(U) -> F,
    E: From<E1> + From<E2>,

    requires
        b.rest is Some,
        bounded(b.rest->0, n),
    ensures
        bounded(b, n),
    decreases n,
{
    assert forall|input: I, effect: E, next: AndThen<G, K, F, (E1, U, E2, E)>| #[trigger]
        b.resumes(input, CoroutineState::Yielded(effect), next) implies n > 0 && bounded(
        next,
        (n - 1) as nat,
    ) by {
        let narrow = choose|narrow: E2|
            {
                &&& #[trigger] b.rest->0.resumes(
                    input,
                    CoroutineState::Yielded(narrow),
                    next.rest->0,
                )
                &&& embeds(narrow, effect)
            };
        lemma_bind_second_bounded(next, (n - 1) as nat);
    }
}

/// `bind(C, g)` suspends at most as often as `C` and what `g` makes
/// together: `n` bounds `C`, and `m` every computation that `g` can make.
pub proof fn lemma_bind_bounded<I: Clone, E1, E2, E, U, T, G, K, F>(b: AndThen<G, K, F, (E1, U, E2, E)>, n: nat, m: nat) where
    G: Coroutine<I, E1, U>,
    F: Coroutine<I, E2, T>,
    K: FnOnce(U) -> F,
    E: From<E1> + From<E2>,

    requires
        b.rest is None,
        b.make is Some,
        bounded(b.source, n),
        forall|v: U, second: F| #[trigger]
            call_ensures(b.make->0, (v,), second) ==> bounded(second, m),
    ensures
        bounded(b, n + m),
    decreases n,
{
    assert forall|input: I, effect: E, next: AndThen<G, K, F, (E1, U, E2, E)>| #[trigger]
        b.resumes(input, CoroutineState::Yielded(effect), next) implies n + m > 0 && bounded(
        next,
        (n + m - 1) as nat,
    ) by {
        let state = CoroutineState::<E, T>::Yielded(effect);
        let copy = choose|copy: I| #[trigger]
            cloned(input, copy) && (bind_yields(b, copy, state, next) || bind_hands_over(
                b,
                input,
                copy,
                state,
                next,
            ));
        if bind_yields(b, copy, state, next) {
            let narrow = choose|narrow: E1|
                {
                    &&& #[trigger] b.source.resumes(
                        copy,
                        CoroutineState::Yielded(narrow),
                        next.source,
                    )
                    &&& embeds(narrow, effect)
                };
            lemma_bind_bounded(next, (n - 1) as nat, m);
        } else {
            let (v, second) = choose|v: U, second: F|
                {
                    &&& #[trigger] b.source.resumes(copy, CoroutineState::Complete(v), next.source)
                    &&& #[trigger] call_ensures(b.make->0, (v,), second)
                    &&& forwards(second, input, state, next.rest->0)
                };
            let narrow = choose|narrow: E2|
                {
                    &&& #[trigger] second.resumes(
                        input,
                        CoroutineState::Yielded(narrow),
                        next.rest->0,
                    )
                    &&& embeds(narrow, effect)
                };
            lemma_bind_second_bounded(next, (m - 1) as nat);
            lemma_bounded_weaken(next, (m - 1) as nat, (n + m - 1) as nat);
        }
    }
}

} // verus!
