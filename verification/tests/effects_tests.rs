use svetd::command::{Duration, Number};
use svetd::effects::{xorshift, Effect, EffectManager, RandomState};
use svetd::engine::ParamRef;

fn fade(l: &str) -> Effect {
    Effect::Fade {
        target_val: Number { literal: l.to_string(), divisor: None, percent: false },
        duration: Duration::Time(Number { literal: "1".to_string(), divisor: None, percent: false }),
    }
}

fn reference_xorshift(mut s: u64) -> u64 {
    s ^= s << 13;
    s ^= s >> 7;
    s ^= s << 17;
    s
}

#[test]
fn xorshift_matches_the_generator() {
    for s in [1u64, 2, 12345, u64::MAX, 0x9e37_79b9_7f4a_7c15] {
        assert_eq!(xorshift(s), reference_xorshift(s));
    }
    assert_eq!(xorshift(1), 1082269761);
    let mut st = RandomState { prev_val: 1, next_val: 2, last_period: 3, rng_state: 1 };
    st.step_rng();
    assert_eq!(st.rng_state, 1082269761);
    assert_eq!((st.prev_val, st.next_val, st.last_period), (1, 2, 3));
}

#[test]
fn one_effect_per_parameter() {
    let mut em = EffectManager::new();
    em.add_effect(ParamRef::Raw(1), fade("1"), 0, 0, 0, None);
    em.add_effect(ParamRef::Fixture("F1".to_string(), "Dimmer".to_string()), fade("2"), 0, 0, 0, None);
    em.add_effect(ParamRef::Raw(1), fade("3"), 5, 6, 7, None);
    assert_eq!(em.len(), 2);
    assert_eq!(em.effect(0).effect, fade("2"));
    assert_eq!(em.effect(1).effect, fade("3"));
    assert_eq!(em.effect(1).start_beat, 5);
    assert_eq!(em.effect(1).start_val, 6);
    assert_eq!(em.effect(1).start_time, 7);
    em.clear_effects_for(&ParamRef::Fixture("F1".to_string(), "Dimmer".to_string()));
    assert_eq!(em.len(), 1);
    assert_eq!(em.effect(0).param, ParamRef::Raw(1));
}

#[test]
fn completed_effects_are_removed() {
    let mut em = EffectManager::new();
    for i in 0..5usize {
        em.add_effect(ParamRef::Raw(i), fade("1"), 0, 0, 0, None);
    }
    em.set_random_state(2, Some(RandomState { prev_val: 0, next_val: 0, last_period: 9, rng_state: 4 }));
    assert_eq!(em.effect(2).random_state.unwrap().last_period, 9);
    em.remove_completed(&vec![0, 3]);
    assert_eq!(em.len(), 3);
    assert_eq!(em.effect(0).param, ParamRef::Raw(1));
    assert_eq!(em.effect(1).param, ParamRef::Raw(2));
    assert_eq!(em.effect(2).param, ParamRef::Raw(4));
}
