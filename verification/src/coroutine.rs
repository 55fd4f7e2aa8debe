//! Suspendable computations: what it means to resume one, the runs a
//! computation has, and the combinators `fmap`, `map_effect`, `map_input` and
//! `bind`.

use std::marker::PhantomData;
use vstd::prelude::*;

verus! {

/// What one resumption of a computation hands back to its driver.
#[derive(Debug, Clone, Copy, PartialEq, Eq)]
pub enum CoroutineState<Y, R> {
    /// The computation paused and asks this of its driver.
    Yielded(Y),
    /// The computation finished with this result.
    Complete(R),
}

/// A computation that can pause, hand out an effect, and later go on from
/// that point with the answer it is given. `I` is what it is resumed with,
/// `Y` the effects it may ask for, `R` what it finishes with.
///
/// `resume` takes the computation by exclusive reference, so a computation has
/// one driver at a time: nothing else can reach it while a resumption runs.
pub trait Coroutine<I, Y, R>: Sized {
    /// Holds while the computation may be resumed: it is in a valid state and
    /// has not completed.
    spec fn resumable(&self) -> bool;

    /// The steps the computation can take: resumed with `input` it may hand
    /// back `state` and be left as `next`.
    spec fn resumes(&self, input: I, state: CoroutineState<Y, R>, next: Self) -> bool;

    /// Runs the computation up to its next suspension or to its end.
    fn resume(&mut self, input: I) -> (state: CoroutineState<Y, R>)
        requires
            old(self).resumable(),
        ensures
            old(self).resumes(input, state, *final(self)),
            final(self).resumable() <==> state is Yielded,
    ;
}

/// `c`, resumed with `inputs` one after the other, suspends with `effects` in
/// this order and after them completes with `result` on the last input.
pub open spec fn runs<I, Y, R, C: Coroutine<I, Y, R>>(
    c: C,
    inputs: Seq<I>,
    effects: Seq<Y>,
    result: R,
) -> bool
    decreases inputs.len(),
{
    if inputs.len() == 0 {
        false
    } else if inputs.len() == 1 {
        &&& effects.len() == 0
        &&& exists|end: C| #[trigger]
            c.resumes(inputs[0], CoroutineState::<Y, R>::Complete(result), end)
    } else {
        &&& effects.len() == inputs.len() - 1
        &&& exists|next: C|
            {
                &&& #[trigger] c.resumes(
                    inputs[0],
                    CoroutineState::<Y, R>::Yielded(effects[0]),
                    next,
                )
                &&& runs(next, inputs.skip(1), effects.skip(1), result)
            }
    }
}

/// Some run of `c` completes with `result`.
pub open spec fn can_return<I, Y, R, C: Coroutine<I, Y, R>>(c: C, result: R) -> bool {
    exists|inputs: Seq<I>, effects: Seq<Y>| #[trigger] runs(c, inputs, effects, result)
}

/// Whatever it is resumed with, `c` suspends at most `n` more times.
pub open spec fn bounded<I, Y, R, C: Coroutine<I, Y, R>>(c: C, n: nat) -> bool
    decreases n,
{
    forall|input: I, effect: Y, next: C| #[trigger]
        c.resumes(input, CoroutineState::<Y, R>::Yielded(effect), next) ==> n > 0 && bounded::<
            I,
            Y,
            R,
            C,
        >(next, (n - 1) as nat)
}

/// `wide` is what the conversion of `narrow` into the wider type gives.
pub open spec fn embeds<A, B: From<A>>(narrow: A, wide: B) -> bool {
    call_ensures(B::from, (narrow,), wide)
}

/// One step of a computation whose effects are forwarded into a wider set:
/// `c`, resumed with `input`, is left as `next`, and `state` is what it handed
/// back with its effect converted.
pub open spec fn forwards<I, Y, R, C: Coroutine<I, Y, R>, E: From<Y>>(
    c: C,
    input: I,
    state: CoroutineState<E, R>,
    next: C,
) -> bool {
    match state {
        CoroutineState::Yielded(wide) => exists|narrow: Y|
            {
                &&& #[trigger] c.resumes(input, CoroutineState::<Y, R>::Yielded(narrow), next)
                &&& embeds(narrow, wide)
            },
        CoroutineState::Complete(result) => c.resumes(
            input,
            CoroutineState::<Y, R>::Complete(result),
            next,
        ),
    }
}

/// A run stays a run when one suspension is put in front of it.
pub proof fn lemma_runs_prepend<I, Y, R, C: Coroutine<I, Y, R>>(
    c: C,
    input: I,
    effect: Y,
    next: C,
    inputs: Seq<I>,
    effects: Seq<Y>,
    result: R,
)
    requires
        c.resumes(input, CoroutineState::<Y, R>::Yielded(effect), next),
        runs(next, inputs, effects, result),
    ensures
        runs(c, seq![input] + inputs, seq![effect] + effects, result),
{
    let all_inputs = seq![input] + inputs;
    let all_effects = seq![effect] + effects;
    assert(all_inputs.skip(1) =~= inputs);
    assert(all_effects.skip(1) =~= effects);
    assert(all_inputs[0] == input);
    assert(all_effects[0] == effect);
}

/// What a computation can return after a suspension, it could return before.
pub proof fn lemma_can_return_prepend<I, Y, R, C: Coroutine<I, Y, R>>(
    c: C,
    input: I,
    effect: Y,
    next: C,
    result: R,
)
    requires
        c.resumes(input, CoroutineState::<Y, R>::Yielded(effect), next),
        can_return::<I, Y, R, C>(next, result),
    ensures
        can_return::<I, Y, R, C>(c, result),
{
    let (inputs, effects) = choose|inputs: Seq<I>, effects: Seq<Y>| #[trigger]
        runs(next, inputs, effects, result);
    lemma_runs_prepend(c, input, effect, next, inputs, effects, result);
}

/// A computation that completes on a resumption can return what it completed
/// with.
pub proof fn lemma_can_return_now<I, Y, R, C: Coroutine<I, Y, R>>(
    c: C,
    input: I,
    result: R,
    end: C,
)
    requires
        c.resumes(input, CoroutineState::<Y, R>::Complete(result), end),
    ensures
        can_return::<I, Y, R, C>(c, result),
{
    let inputs = seq![input];
    let effects = Seq::<Y>::empty();
    assert(inputs[0] == input);
    assert(runs(c, inputs, effects, result));
}

/// A computation whose result is passed through a function once it completes.
pub struct Mapped<G, K, T> {
    /// The computation that is driven.
    pub inner: G,
    /// The function for the result, until it has been applied.
    pub finish: Option<K>,
    /// What the driven computation completes with.
    pub source: PhantomData<T>,
}

/// `m` may be resumed: the computation it drives may be, and the function is
/// still there and takes whatever that computation can return.
pub open spec fn map_resumable<I, E, T, U, G: Coroutine<I, E, T>, K: FnOnce(T) -> U>(
    m: Mapped<G, K, T>,
) -> bool {
    &&& m.inner.resumable()
    &&& m.finish is Some
    &&& forall|t: T| #[trigger]
        can_return::<I, E, T, G>(m.inner, t) ==> call_requires(m.finish->0, (t,))
}

/// The steps of `m`: a suspension of the computation it drives is handed on
/// as it is; where that computation completes, the result is what the
/// function gives for its result.
pub open spec fn map_resumes<I, E, T, U, G: Coroutine<I, E, T>, K: FnOnce(T) -> U>(
    m: Mapped<G, K, T>,
    input: I,
    state: CoroutineState<E, U>,
    next: Mapped<G, K, T>,
) -> bool {
    match state {
        CoroutineState::Yielded(effect) => {
            &&& m.inner.resumes(input, CoroutineState::<E, T>::Yielded(effect), next.inner)
            &&& next.finish == m.finish
        },
        CoroutineState::Complete(result) => {
            &&& m.finish is Some
            &&& next.finish is None
            &&& exists|t: T|
                {
                    &&& #[trigger] m.inner.resumes(
                        input,
                        CoroutineState::<E, T>::Complete(t),
                        next.inner,
                    )
                    &&& call_ensures(m.finish->0, (t,), result)
                }
        },
    }
}

impl<I, E, T, U, G: Coroutine<I, E, T>, K: FnOnce(T) -> U> Coroutine<I, E, U> for Mapped<G, K, T> {
    open spec fn resumable(&self) -> bool {
        map_resumable::<I, E, T, U, G, K>(*self)
    }

    open spec fn resumes(&self, input: I, state: CoroutineState<E, U>, next: Self) -> bool {
        map_resumes(*self, input, state, next)
    }

    fn resume(&mut self, input: I) -> (state: CoroutineState<E, U>)
        ensures
            map_resumes(*old(self), input, state, *final(self)),
    {
        match self.inner.resume(input) {
            CoroutineState::Yielded(effect) => {
                proof {
                    assert forall|t: T| #[trigger]
                        can_return::<I, E, T, G>(self.inner, t) implies call_requires(
                        self.finish->0,
                        (t,),
                    ) by {
                        lemma_can_return_prepend(old(self).inner, input, effect, self.inner, t);
                    }
                }
                CoroutineState::Yielded(effect)
            },
            CoroutineState::Complete(t) => {
                proof {
                    lemma_can_return_now(old(self).inner, input, t, self.inner);
                }
                let finish = self.finish.take().unwrap();
                let result = finish(t);
                assert(old(self).inner.resumes(
                    input,
                    CoroutineState::<E, T>::Complete(t),
                    self.inner,
                ));
                CoroutineState::Complete(result)
            },
        }
    }
}

/// Wraps `g`: every effect it suspends with is handed on unchanged and in the
/// same order, and its result becomes `f` of that result.
pub fn fmap<E, I, T, U, G: Coroutine<I, E, T>, K: FnOnce(T) -> U>(g: G, f: K) -> (r: Mapped<
    G,
    K,
    T,
>)
    ensures
        r.inner == g,
        r.finish == Some(f),
        Coroutine::<I, E, U>::resumable(&r) <==> map_resumable::<I, E, T, U, G, K>(r),
{
    Mapped { inner: g, finish: Some(f), source: PhantomData }
}

/// A computation whose effects are converted into a wider effect set. The
/// marker `M` is the pair of the narrow and the wide effect type.
pub struct MappedEffect<G, M> {
    /// The computation that is driven.
    pub inner: G,
    /// The effect types that the conversion goes between.
    pub effects: PhantomData<M>,
}

impl<I, E1, E2: From<E1>, R, G: Coroutine<I, E1, R>> Coroutine<I, E2, R> for MappedEffect<
    G,
    (E1, E2),
> {
    open spec fn resumable(&self) -> bool {
        self.inner.resumable()
    }

    open spec fn resumes(&self, input: I, state: CoroutineState<E2, R>, next: Self) -> bool {
        forwards(self.inner, input, state, next.inner)
    }

    fn resume(&mut self, input: I) -> (state: CoroutineState<E2, R>) {
        match self.inner.resume(input) {
            CoroutineState::Yielded(effect) => {
                let wide = E2::from(effect);
                assert(old(self).inner.resumes(
                    input,
                    CoroutineState::<E1, R>::Yielded(effect),
                    self.inner,
                ));
                CoroutineState::Yielded(wide)
            },
            CoroutineState::Complete(result) => CoroutineState::Complete(result),
        }
    }
}

/// Wraps `f`: every effect it suspends with is converted into the wider set
/// `E2`; inputs and result pass through untouched.
pub fn map_effect<E1, E2, I, R, F: Coroutine<I, E1, R>>(f: F) -> (r: MappedEffect<F, (E1, E2)>) where
    E2: From<E1>,

    ensures
        r.inner == f,
{
    MappedEffect { inner: f, effects: PhantomData }
}

/// A computation whose inputs are converted before they reach it. `I` is the
/// input type that the computation itself takes.
pub struct MappedInput<G, I> {
    /// The computation that is driven.
    pub inner: G,
    /// The input type that the computation itself takes.
    pub native: PhantomData<I>,
}

impl<I1: From<I2>, I2, E, R, G: Coroutine<I1, E, R>> Coroutine<I2, E, R> for MappedInput<G, I1> {
    open spec fn resumable(&self) -> bool {
        self.inner.resumable()
    }

    open spec fn resumes(&self, input: I2, state: CoroutineState<E, R>, next: Self) -> bool {
        exists|native: I1|
            {
                &&& embeds(input, native)
                &&& #[trigger] self.inner.resumes(native, state, next.inner)
            }
    }

    fn resume(&mut self, input: I2) -> (state: CoroutineState<E, R>) {
        let native = I1::from(input);
        let state = self.inner.resume(native);
        assert(old(self).inner.resumes(native, state, self.inner));
        state
    }
}

/// Wraps `f`: every input the driver supplies is converted into `f`'s own
/// input type `I1` before `f` is resumed with it; effects and result pass
/// through untouched.
pub fn map_input<E, I1, I2, R, F: Coroutine<I1, E, R>>(f: F) -> (r: MappedInput<F, I1>) where
    I1: From<I2>,

    ensures
        r.inner == f,
{
    MappedInput { inner: f, native: PhantomData }
}

/// Two computations in sequence: the first, followed by the one that a
/// function makes of the first one's result. The marker `M` holds the effect
/// type and the result type of the first computation, the effect type of the
/// second, and the effect type that both are converted into.
pub struct AndThen<G, K, F, M> {
    /// The first computation.
    pub source: G,
    /// Makes the second computation, until it has been called.
    pub make: Option<K>,
    /// The second computation, once the first has completed.
    pub rest: Option<F>,
    /// The types that the sequence goes between.
    pub types: PhantomData<M>,
}

/// `b` may be resumed. In its second computation: that one may be. In its
/// first: the first may be, and the function is still there, takes whatever
/// the first can return, and makes of it a computation that may be resumed.
pub open spec fn bind_resumable<I: Clone, E1, E2, E3, U, T, G, K, F>(
    b: AndThen<G, K, F, (E1, U, E2, E3)>,
) -> bool where
    G: Coroutine<I, E1, U>,
    F: Coroutine<I, E2, T>,
    K: FnOnce(U) -> F,
    E3: From<E1> + From<E2>,
 {
    match b.rest {
        Some(second) => Coroutine::<I, E2, T>::resumable(&second),
        None => {
            &&& b.source.resumable()
            &&& b.make is Some
            &&& forall|v: U| #[trigger]
                can_return::<I, E1, U, G>(b.source, v) ==> call_requires(b.make->0, (v,))
            &&& forall|v: U, second: F|
                can_return::<I, E1, U, G>(b.source, v) && #[trigger] call_ensures(
                    b.make->0,
                    (v,),
                    second,
                ) ==> Coroutine::<I, E2, T>::resumable(&second)
        },
    }
}

/// A step of `b` on which its first computation suspends: that computation
/// was resumed with `copy`, and its effect is handed on converted.
pub open spec fn bind_yields<I: Clone, E1, E2, E3, U, T, G, K, F>(
    b: AndThen<G, K, F, (E1, U, E2, E3)>,
    copy: I,
    state: CoroutineState<E3, T>,
    next: AndThen<G, K, F, (E1, U, E2, E3)>,
) -> bool where
    G: Coroutine<I, E1, U>,
    F: Coroutine<I, E2, T>,
    K: FnOnce(U) -> F,
    E3: From<E1> + From<E2>,
 {
    &&& next.rest is None
    &&& next.make == b.make
    &&& state matches CoroutineState::Yielded(wide)
    &&& exists|narrow: E1|
        {
            &&& #[trigger] b.source.resumes(
                copy,
                CoroutineState::<E1, U>::Yielded(narrow),
                next.source,
            )
            &&& embeds(narrow, wide)
        }
}

/// A step of `b` on which its first computation completes: that computation
/// was resumed with `copy`, the second one is made of its result and at once
/// resumed with `input`.
pub open spec fn bind_hands_over<I: Clone, E1, E2, E3, U, T, G, K, F>(
    b: AndThen<G, K, F, (E1, U, E2, E3)>,
    input: I,
    copy: I,
    state: CoroutineState<E3, T>,
    next: AndThen<G, K, F, (E1, U, E2, E3)>,
) -> bool where
    G: Coroutine<I, E1, U>,
    F: Coroutine<I, E2, T>,
    K: FnOnce(U) -> F,
    E3: From<E1> + From<E2>,
 {
    &&& b.make is Some
    &&& next.make is None
    &&& next.rest is Some
    &&& exists|v: U, second: F|
        {
            &&& #[trigger] b.source.resumes(
                copy,
                CoroutineState::<E1, U>::Complete(v),
                next.source,
            )
            &&& #[trigger] call_ensures(b.make->0, (v,), second)
            &&& forwards::<I, E2, T, F, E3>(second, input, state, next.rest->0)
        }
}

/// The steps of `b`. In its second computation, that one is resumed and its
/// effect handed on converted. In its first, the first is resumed with a copy
/// of the input, and either suspends or hands over to the second.
pub open spec fn bind_resumes<I: Clone, E1, E2, E3, U, T, G, K, F>(
    b: AndThen<G, K, F, (E1, U, E2, E3)>,
    input: I,
    state: CoroutineState<E3, T>,
    next: AndThen<G, K, F, (E1, U, E2, E3)>,
) -> bool where
    G: Coroutine<I, E1, U>,
    F: Coroutine<I, E2, T>,
    K: FnOnce(U) -> F,
    E3: From<E1> + From<E2>,
 {
    match b.rest {
        Some(second) => {
            &&& next.rest is Some
            &&& next.source == b.source
            &&& next.make == b.make
            &&& forwards::<I, E2, T, F, E3>(second, input, state, next.rest->0)
        },
        None => exists|copy: I| #[trigger]
            cloned(input, copy) && (bind_yields(b, copy, state, next) || bind_hands_over(
                b,
                input,
                copy,
                state,
                next,
            )),
    }
}

impl<I: Clone, E1, E2, E3, U, T, G, K, F> Coroutine<I, E3, T> for AndThen<
    G,
    K,
    F,
    (E1, U, E2, E3),
> where
    G: Coroutine<I, E1, U>,
    F: Coroutine<I, E2, T>,
    K: FnOnce(U) -> F,
    E3: From<E1> + From<E2>,
 {
    open spec fn resumable(&self) -> bool {
        bind_resumable::<I, E1, E2, E3, U, T, G, K, F>(*self)
    }

    open spec fn resumes(&self, input: I, state: CoroutineState<E3, T>, next: Self) -> bool {
        bind_resumes(*self, input, state, next)
    }

    fn resume(&mut self, input: I) -> (state: CoroutineState<E3, T>)
        ensures
            bind_resumes(*old(self), input, state, *final(self)),
    {
        match self.rest.take() {
            Some(mut second) => {
                let inner = second.resume(input);
                self.rest = Some(second);
                match inner {
                    CoroutineState::Yielded(effect) => {
                        let wide = E3::from(effect);
                        assert(old(self).rest->0.resumes(
                            input,
                            CoroutineState::<E2, T>::Yielded(effect),
                            second,
                        ));
                        CoroutineState::Yielded(wide)
                    },
                    CoroutineState::Complete(result) => CoroutineState::Complete(result),
                }
            },
            None => {
                let copy = input.clone();
                match self.source.resume(copy) {
                    CoroutineState::Yielded(effect) => {
                        let wide = E3::from(effect);
                        proof {
                            assert forall|v: U| #[trigger]
                                can_return::<I, E1, U, G>(self.source, v) implies can_return::<
                                I,
                                E1,
                                U,
                                G,
                            >(old(self).source, v) by {
                                lemma_can_return_prepend(
                                    old(self).source,
                                    copy,
                                    effect,
                                    self.source,
                                    v,
                                );
                            }
                            assert(old(self).source.resumes(
                                copy,
                                CoroutineState::<E1, U>::Yielded(effect),
                                self.source,
                            ));
                            assert(bind_yields(
                                *old(self),
                                copy,
                                CoroutineState::<E3, T>::Yielded(wide),
                                *self,
                            ));
                            assert(cloned(input, copy));
                        }
                        CoroutineState::Yielded(wide)
                    },
                    CoroutineState::Complete(v) => {
                        proof {
                            lemma_can_return_now(old(self).source, copy, v, self.source);
                        }
                        let make = self.make.take().unwrap();
                        let mut second = make(v);
                        let ghost made = second;
                        let inner = second.resume(input);
                        self.rest = Some(second);
                        let state = match inner {
                            CoroutineState::Yielded(effect) => {
                                let wide = E3::from(effect);
                                assert(made.resumes(
                                    input,
                                    CoroutineState::<E2, T>::Yielded(effect),
                                    second,
                                ));
                                CoroutineState::Yielded(wide)
                            },
                            CoroutineState::Complete(result) => CoroutineState::Complete(result),
                        };
                        proof {
                            assert(forwards::<I, E2, T, F, E3>(made, input, state, second));
                            assert(old(self).source.resumes(
                                copy,
                                CoroutineState::<E1, U>::Complete(v),
                                self.source,
                            ));
                            assert(call_ensures(old(self).make->0, (v,), made));
                            assert(bind_hands_over(*old(self), input, copy, state, *self));
                            assert(cloned(input, copy));
                        }
                        state
                    },
                }
            },
        }
    }
}

/// Runs `g` first and afterwards the computation that `f` makes of `g`'s
/// result.
///
/// Every resumption hands `g` a copy of the input; the input on which `g`
/// completes is also the first that the second computation is resumed with.
/// The effects of both are converted into `E3`: first all of `g`'s, after
/// them all of the second computation's. The result is that of the second
/// computation.
pub fn bind<E1, E2, E3, F, G, I, T, U, K>(g: G, f: K) -> (r: AndThen<G, K, F, (E1, U, E2, E3)>) where
    I: Clone,
    G: Coroutine<I, E1, U>,
    F: Coroutine<I, E2, T>,
    K: FnOnce(U) -> F,
    E3: From<E1> + From<E2>,

    ensures
        r.source == g,
        r.make == Some(f),
        r.rest is None,
        Coroutine::<I, E3, T>::resumable(&r) <==> bind_resumable::<I, E1, E2, E3, U, T, G, K, F>(r),
{
    AndThen { source: g, make: Some(f), rest: None, types: PhantomData }
}

/// What `resumable` and `resumes` say of a computation made by `fmap`.
/// Verus does not look into them by itself where the function is a closure.
pub proof fn lemma_map_unfold<I, E, T, U, G: Coroutine<I, E, T>, K: FnOnce(T) -> U>(
    m: Mapped<G, K, T>,
)
    ensures
        Coroutine::<I, E, U>::resumable(&m) <==> map_resumable::<I, E, T, U, G, K>(m),
        forall|input: I, state: CoroutineState<E, U>, next: Mapped<G, K, T>| #[trigger]
            m.resumes(input, state, next) <==> map_resumes(m, input, state, next),
{
}

/// What `resumable` and `resumes` say of a computation made by `bind`.
/// Verus does not look into them by itself where the function is a closure.
pub proof fn lemma_bind_unfold<I: Clone, E1, E2, E3, U, T, G, K, F>(
    b: AndThen<G, K, F, (E1, U, E2, E3)>,
) where
    G: Coroutine<I, E1, U>,
    F: Coroutine<I, E2, T>,
    K: FnOnce(U) -> F,
    E3: From<E1> + From<E2>,

    ensures
        Coroutine::<I, E3, T>::resumable(&b) <==> bind_resumable::<I, E1, E2, E3, U, T, G, K, F>(b),
        forall|input: I, state: CoroutineState<E3, T>, next: AndThen<G, K, F, (E1, U, E2, E3)>|
         #[trigger]
            b.resumes(input, state, next) <==> bind_resumes(b, input, state, next),
{
}

/// `map` as a method of every computation.
pub trait MapCoroutine<R, E, T>: Coroutine<R, E, T> {
    /// Wraps the computation: its effects are handed on unchanged, its
    /// result becomes `f` of that result.
    fn map<U, K: FnOnce(T) -> U>(self, f: K) -> (r: Mapped<Self, K, T>)
        ensures
            r.inner == self,
            r.finish == Some(f),
            Coroutine::<R, E, U>::resumable(&r) <==> map_resumable::<R, E, T, U, Self, K>(r),
    ;
}

/// `and_then` as a method of every computation.
pub trait BindCoroutine<R, F, Ef, T, E, U>: Coroutine<R, E, U> {
    /// Runs the computation first and afterwards the one that `f` makes of
    /// its result, with the effects of both converted into `E3`.
    fn and_then<E3, K>(self, f: K) -> (r: AndThen<Self, K, F, (E, U, Ef, E3)>) where
        R: Clone,
        F: Coroutine<R, Ef, T>,
        K: FnOnce(U) -> F,
        E3: From<E> + From<Ef>,

        ensures
            r.source == self,
            r.make == Some(f),
            r.rest is None,
            Coroutine::<R, E3, T>::resumable(&r) <==> bind_resumable::<
                R,
                E,
                Ef,
                E3,
                U,
                T,
                Self,
                K,
                F,
            >(r),
    ;
}

impl<G: Coroutine<R, E, T>, R, E, T> MapCoroutine<R, E, T> for G {
    fn map<U, K: FnOnce(T) -> U>(self, f: K) -> (r: Mapped<Self, K, T>) {
        fmap(self, f)
    }
}

impl<G: Coroutine<R, E, U>, R: Clone, F, Ef, T, E, U> BindCoroutine<R, F, Ef, T, E, U> for G {
    fn and_then<E3, K>(self, f: K) -> (r: AndThen<Self, K, F, (E, U, Ef, E3)>) where
        R: Clone,
        F: Coroutine<R, Ef, T>,
        K: FnOnce(U) -> F,
        E3: From<E> + From<Ef>,
     {
        bind(self, f)
    }
}

/// Hands `f` back as it is. It serves to fix the effect, input and result
/// types of a computation where it is made.
pub fn assert_effect<Eff, R, O, F: Coroutine<R, Eff, O>>(f: F) -> (r: F)
    ensures
        r == f,
{
    f
}

} // verus!
