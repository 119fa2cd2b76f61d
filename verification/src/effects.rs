//! Effects that animate a parameter over time.
use vstd::prelude::*;
use crate::command::{Number, SpecNumber, Duration, SpecDuration};
use crate::engine::{ParamRef, SpecParamRef, Engine, param_value};

verus! {

/// The shape of one period of a cycling or random effect.
#[derive(Debug, Clone, Copy, PartialEq, Eq, Structural)]
pub enum Easing {
    Linear,
    Sine,
    Step,
}

/// How an effect's value combines with the parameter's value when the effect started.
#[derive(Debug, Clone, Copy, PartialEq, Eq, Structural)]
pub enum MathMethod {
    Absolute,
    Add,
    Subtract,
    Multiply,
}

/// An effect on one parameter.
#[derive(Debug, Clone, PartialEq, Eq)]
pub enum Effect {
    Fade { target_val: Number, duration: Duration },
    Cycle {
        min_val: Number,
        max_val: Number,
        duration: Duration,
        easing: Easing,
        method: MathMethod,
    },
    Random {
        min_val: Number,
        max_val: Number,
        duration: Duration,
        easing: Easing,
        method: MathMethod,
    },
    Random0 {
        min_val: Number,
        max_val: Number,
        duration: Duration,
        easing: Easing,
        method: MathMethod,
    },
}

/// The mathematical value of an `Effect`.
pub enum SpecEffect {
    Fade { target_val: SpecNumber, duration: SpecDuration },
    Cycle {
        min_val: SpecNumber,
        max_val: SpecNumber,
        duration: SpecDuration,
        easing: Easing,
        method: MathMethod,
    },
    Random {
        min_val: SpecNumber,
        max_val: SpecNumber,
        duration: SpecDuration,
        easing: Easing,
        method: MathMethod,
    },
    Random0 {
        min_val: SpecNumber,
        max_val: SpecNumber,
        duration: SpecDuration,
        easing: Easing,
        method: MathMethod,
    },
}

impl View for Effect {
    type V = SpecEffect;

    open spec fn view(&self) -> SpecEffect {
        match self {
            Effect::Fade { target_val, duration } => SpecEffect::Fade {
                target_val: target_val@,
                duration: duration@,
            },
            Effect::Cycle { min_val, max_val, duration, easing, method } => SpecEffect::Cycle {
                min_val: min_val@,
                max_val: max_val@,
                duration: duration@,
                easing: *easing,
                method: *method,
            },
            Effect::Random { min_val, max_val, duration, easing, method } => SpecEffect::Random {
                min_val: min_val@,
                max_val: max_val@,
                duration: duration@,
                easing: *easing,
                method: *method,
            },
            Effect::Random0 { min_val, max_val, duration, easing, method } => SpecEffect::Random0 {
                min_val: min_val@,
                max_val: max_val@,
                duration: duration@,
                easing: *easing,
                method: *method,
            },
        }
    }
}

impl Effect {
    /// A copy of this effect.
    pub fn copy(&self) -> (r: Effect)
        ensures
            r@ == self@,
    {
        match self {
            Effect::Fade { target_val, duration } => Effect::Fade {
                target_val: target_val.copy(),
                duration: duration.copy(),
            },
            Effect::Cycle { min_val, max_val, duration, easing, method } => Effect::Cycle {
                min_val: min_val.copy(),
                max_val: max_val.copy(),
                duration: duration.copy(),
                easing: *easing,
                method: *method,
            },
            Effect::Random { min_val, max_val, duration, easing, method } => Effect::Random {
                min_val: min_val.copy(),
                max_val: max_val.copy(),
                duration: duration.copy(),
                easing: *easing,
                method: *method,
            },
            Effect::Random0 { min_val, max_val, duration, easing, method } => Effect::Random0 {
                min_val: min_val.copy(),
                max_val: max_val.copy(),
                duration: duration.copy(),
                easing: *easing,
                method: *method,
            },
        }
    }
}

/// One step of the xorshift generator: `x ^= x << 13; x ^= x >> 7; x ^= x << 17`.
pub open spec fn xorshift_step(x: u64) -> u64 {
    let a = x ^ (x << 13u64);
    let b = a ^ (a >> 7u64);
    b ^ (b << 17u64)
}

/// The next state of the xorshift generator (see `xorshift_step`).
pub fn xorshift(x: u64) -> (r: u64)
    ensures
        r == xorshift_step(x),
{
    let mut s = x;
    s = s ^ (s << 13u64);
    s = s ^ (s >> 7u64);
    s = s ^ (s << 17u64);
    s
}

/// The state of a random effect: the values (binary32 bits) it moves between, the last
/// period it drew a value for, and its generator.
#[derive(Debug, Clone, Copy, PartialEq, Eq, Structural)]
pub struct RandomState {
    pub prev_val: u32,
    pub next_val: u32,
    pub last_period: u64,
    pub rng_state: u64,
}

impl RandomState {
    /// Advances the generator one step.
    pub fn step_rng(&mut self)
        ensures
            final(self).rng_state == xorshift_step(old(self).rng_state),
            final(self).prev_val == old(self).prev_val,
            final(self).next_val == old(self).next_val,
            final(self).last_period == old(self).last_period,
    {
        self.rng_state = xorshift(self.rng_state);
    }
}

/// An effect running on a parameter, with what it started from: the time (microseconds), the
/// beat and the parameter's value (binary32 bits).
pub struct ActiveEffect {
    pub param: ParamRef,
    pub effect: Effect,
    pub start_time: u64,
    pub start_beat: u32,
    pub start_val: u32,
    pub random_state: Option<RandomState>,
}

pub struct SpecActiveEffect {
    pub param: SpecParamRef,
    pub effect: SpecEffect,
    pub start_time: u64,
    pub start_beat: u32,
    pub start_val: u32,
    pub random_state: Option<RandomState>,
}

impl View for ActiveEffect {
    type V = SpecActiveEffect;

    open spec fn view(&self) -> SpecActiveEffect {
        SpecActiveEffect {
            param: self.param@,
            effect: self.effect@,
            start_time: self.start_time,
            start_beat: self.start_beat,
            start_val: self.start_val,
            random_state: self.random_state,
        }
    }
}

/// The random state an effect starts with, given what the generator drew (`draw`: the drawn
/// value's binary32 bits and the generator's state after drawing): a random effect moves from
/// `start_val` to the drawn value, a random-to-zero effect from the drawn value to zero
/// (binary32 0.0), both from period 0; other effects have none.
pub open spec fn initial_random_state(effect: SpecEffect, start_val: u32, draw: Option<(u32, u64)>) -> Option<RandomState> {
    match draw {
        Some((v, g)) => match effect {
            SpecEffect::Random { .. } => Some(RandomState { prev_val: start_val, next_val: v, last_period: 0, rng_state: g }),
            SpecEffect::Random0 { .. } => Some(RandomState { prev_val: v, next_val: 0, last_period: 0, rng_state: g }),
            _ => None,
        },
        None => None,
    }
}

/// Whether `effect` draws random values.
pub open spec fn is_random_effect(effect: SpecEffect) -> bool {
    effect is Random || effect is Random0
}

/// The effects that do not run on `p`, in order.
pub open spec fn without_param(s: Seq<SpecActiveEffect>, p: SpecParamRef) -> Seq<SpecActiveEffect>
    decreases s.len(),
{
    if s.len() == 0 {
        s
    } else {
        let prev = without_param(s.drop_last(), p);
        if s.last().param == p {
            prev
        } else {
            prev.push(s.last())
        }
    }
}

/// The effects after removing those at the positions `idx` (ascending), from the last one.
pub open spec fn without_positions(s: Seq<SpecActiveEffect>, idx: Seq<usize>) -> Seq<SpecActiveEffect>
    decreases idx.len(),
{
    if idx.len() == 0 {
        s
    } else {
        without_positions(s.remove(idx.last() as int), idx.drop_last())
    }
}

/// Strictly ascending positions below `n`.
pub open spec fn ascending_below(idx: Seq<usize>, n: int) -> bool {
    &&& forall|i: int, j: int| 0 <= i < j < idx.len() ==> idx[i] < idx[j]
    &&& forall|i: int| 0 <= i < idx.len() ==> idx[i] < n
}

/// The effects running, in the order they were started.
pub struct EffectManager {
    active_effects: Vec<ActiveEffect>,
}

impl View for EffectManager {
    type V = Seq<SpecActiveEffect>;

    closed spec fn view(&self) -> Seq<SpecActiveEffect> {
        self.active_effects@.map_values(|e: ActiveEffect| e@)
    }
}

impl EffectManager {
    /// No effects.
    pub fn new() -> (r: EffectManager)
        ensures
            r@.len() == 0,
    {
        let r = EffectManager { active_effects: Vec::new() };
        assert(r@ =~= Seq::<SpecActiveEffect>::empty());
        r
    }

    fn remove_param(&mut self, param: &ParamRef)
        ensures
            final(self)@ == without_param(old(self)@, param@),
    {
        let mut kept: Vec<ActiveEffect> = Vec::new();
        let mut rest: Vec<ActiveEffect> = Vec::new();
        std::mem::swap(&mut rest, &mut self.active_effects);
        let ghost all = rest@.map_values(|e: ActiveEffect| e@);
        assert(all == old(self)@);
        let mut i: usize = 0;
        let n = rest.len();
        while i < n
            invariant
                i <= n,
                n == all.len(),
                rest@.map_values(|e: ActiveEffect| e@) == all.skip(i as int),
                rest.len() == n - i,
                kept@.map_values(|e: ActiveEffect| e@) == without_param(all.take(i as int), param@),
            decreases n - i,
        {
            assert(rest@.map_values(|e: ActiveEffect| e@)[0] == all[i as int]);
            let ghost rv = rest@;
            let e = rest.remove(0);
            assert forall|j: int| 0 <= j < rest@.len() implies #[trigger] rest@[j]@ == all.skip(i + 1)[j] by {
                assert(rest@[j] == rv[j + 1]);
                assert(rv.map_values(|e: ActiveEffect| e@)[j + 1] == all.skip(i as int)[j + 1]);
            }
            assert(rest@.map_values(|e: ActiveEffect| e@) =~= all.skip(i + 1));
            let ghost t = all.take(i + 1);
            assert(t.drop_last() =~= all.take(i as int));
            assert(e@ == all[i as int]);
            if !e.param.same(param) {
                let ghost before = kept@.map_values(|e: ActiveEffect| e@);
                kept.push(e);
                assert(kept@.map_values(|e: ActiveEffect| e@) =~= before.push(all[i as int]));
            }
            i = i + 1;
        }
        assert(all.take(i as int) =~= all);
        self.active_effects = kept;
    }

    /// Starts `effect` on `param`, replacing the effects running on it.
    pub fn add_effect(
        &mut self,
        param: ParamRef,
        effect: Effect,
        start_beat: u32,
        start_val: u32,
        start_time: u64,
        random_state: Option<RandomState>,
    )
        ensures
            final(self)@ == without_param(old(self)@, param@).push(
                SpecActiveEffect {
                    param: param@,
                    effect: effect@,
                    start_time,
                    start_beat,
                    start_val,
                    random_state,
                },
            ),
    {
        self.remove_param(&param);
        let ghost before = self@;
        let e = ActiveEffect { param, effect, start_time, start_beat, start_val, random_state };
        let ghost ev = e@;
        self.active_effects.push(e);
        assert(self@ =~= before.push(ev));
    }

    /// Starts `effect` on the parameter `p` of `engine` from that parameter's value now (0
    /// where `p` names no parameter), replacing the effects running on it; a random effect
    /// starts with the value `draw` holds (see `initial_random_state`).
    pub fn start_effect(
        &mut self,
        engine: &Engine,
        p: ParamRef,
        effect: Effect,
        start_beat: u32,
        start_time: u64,
        draw: Option<(u32, u64)>,
    )
        requires
            is_random_effect(effect@) == draw is Some,
        ensures
            ({
                let start_val = match param_value(engine.raw_channels@, engine.fixtures@, p@) {
                    Some(b) => b,
                    None => 0u32,
                };
                final(self)@ == without_param(old(self)@, p@).push(
                    SpecActiveEffect {
                        param: p@,
                        effect: effect@,
                        start_time,
                        start_beat,
                        start_val,
                        random_state: initial_random_state(effect@, start_val, draw),
                    },
                )
            }),
    {
        let start_val = match engine.param_bits(&p) {
            Some(b) => b,
            None => 0,
        };
        let random_state = match draw {
            Some((v, g)) => match &effect {
                Effect::Random { .. } => Some(RandomState { prev_val: start_val, next_val: v, last_period: 0, rng_state: g }),
                Effect::Random0 { .. } => Some(RandomState { prev_val: v, next_val: 0, last_period: 0, rng_state: g }),
                _ => None,
            },
            None => None,
        };
        self.add_effect(p, effect, start_beat, start_val, start_time, random_state);
    }

    /// Stops the effects running on `param`.
    pub fn clear_effects_for(&mut self, param: &ParamRef)
        ensures
            final(self)@ == without_param(old(self)@, param@),
    {
        self.remove_param(param);
    }

    /// The number of running effects.
    pub fn len(&self) -> (r: usize)
        ensures
            r == self@.len(),
    {
        self.active_effects.len()
    }

    /// The `i`-th running effect.
    pub fn effect(&self, i: usize) -> (r: &ActiveEffect)
        requires
            i < self@.len(),
        ensures
            r@ == self@[i as int],
    {
        &self.active_effects[i]
    }

    /// Replaces the random state of the `i`-th running effect.
    pub fn set_random_state(&mut self, i: usize, state: Option<RandomState>)
        requires
            i < old(self)@.len(),
        ensures
            final(self)@ == old(self)@.update(i as int, SpecActiveEffect { random_state: state, ..old(self)@[i as int] }),
    {
        let mut e = self.active_effects.remove(i);
        e.random_state = state;
        let ghost ev = e@;
        self.active_effects.insert(i, e);
        assert(self@ =~= old(self)@.update(i as int, ev));
    }

    /// Removes the effects at the positions `completed` (ascending), which have finished.
    pub fn remove_completed(&mut self, completed: &Vec<usize>)
        requires
            ascending_below(completed@, old(self)@.len() as int),
        ensures
            final(self)@ == without_positions(old(self)@, completed@),
    {
        let mut k: usize = completed.len();
        assert(completed@.take(k as int) =~= completed@);
        while k > 0
            invariant
                k <= completed.len(),
                ascending_below(completed@, old(self)@.len() as int),
                forall|j: int| 0 <= j < k ==> #[trigger] completed@[j] < self@.len(),
                without_positions(old(self)@, completed@) == without_positions(self@, completed@.take(k as int)),
            decreases k,
        {
            let idx = completed[k - 1];
            let ghost before = self@;
            let ghost t = completed@.take(k as int);
            assert(t.drop_last() =~= completed@.take(k - 1));
            assert(t.last() == idx);
            self.active_effects.remove(idx);
            assert(self@ =~= before.remove(idx as int));
            k = k - 1;
        }
        assert(completed@.take(0) =~= Seq::<usize>::empty());
    }
}

/// Starting an effect on a parameter leaves exactly one effect on it, the new one, and leaves
/// the effects on other parameters as they were; stopping the effects on a parameter leaves
/// none on it.
pub proof fn law_one_effect_per_param(s: Seq<SpecActiveEffect>, e: SpecActiveEffect, q: SpecParamRef)
    ensures
        forall|k: int| 0 <= k < without_param(s, e.param).len() ==> (#[trigger] without_param(s, e.param)[k]).param != e.param,
        without_param(without_param(s, e.param).push(e), e.param).len() == without_param(s, e.param).len(),
        q != e.param ==> without_param(without_param(s, e.param).push(e), q) == without_param(without_param(s, q), e.param).push(e),
{
    lemma_without_param(s, e.param);
    lemma_without_param_idem(s, e.param);
    let x = without_param(s, e.param);
    assert(x.push(e).drop_last() =~= x);
    if q != e.param {
        lemma_without_param_commute(s, e.param, q);
    }
}

proof fn lemma_without_param(s: Seq<SpecActiveEffect>, p: SpecParamRef)
    ensures
        forall|k: int| 0 <= k < without_param(s, p).len() ==> (#[trigger] without_param(s, p)[k]).param != p,
        without_param(s, p).len() <= s.len(),
    decreases s.len(),
{
    if s.len() > 0 {
        lemma_without_param(s.drop_last(), p);
    }
}

proof fn lemma_without_param_idem(s: Seq<SpecActiveEffect>, p: SpecParamRef)
    ensures
        without_param(without_param(s, p), p) == without_param(s, p),
    decreases s.len(),
{
    if s.len() > 0 {
        lemma_without_param_idem(s.drop_last(), p);
        let prev = without_param(s.drop_last(), p);
        if s.last().param != p {
            assert(prev.push(s.last()).drop_last() =~= prev);
        }
    }
}

proof fn lemma_without_param_commute(s: Seq<SpecActiveEffect>, p: SpecParamRef, q: SpecParamRef)
    ensures
        without_param(without_param(s, p), q) == without_param(without_param(s, q), p),
    decreases s.len(),
{
    if s.len() > 0 {
        lemma_without_param_commute(s.drop_last(), p, q);
        let a = without_param(s.drop_last(), p);
        let b = without_param(s.drop_last(), q);
        if s.last().param != p {
            assert(a.push(s.last()).drop_last() =~= a);
        }
        if s.last().param != q {
            assert(b.push(s.last()).drop_last() =~= b);
        }
    }
}

} // verus!
